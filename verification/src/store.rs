//! Store hashes: read off paths, kept in sets, gathered from listings of requisites.
use crate::event::STORE_HASH_LEN;
use crate::text;
use vstd::prelude::*;
use vstd::string::*;
use vstd::utf8::*;

verus! {

/// The base32 hash in `/nix/store/<hash>-<name>`, as bytes.
pub type StoreHash = [u8; STORE_HASH_LEN];

/// `/nix/store/`, which every store path starts with.
pub const STORE_PREFIX: [u8; 11] = [
    0x2f,
    0x6e,
    0x69,
    0x78,
    0x2f,
    0x73,
    0x74,
    0x6f,
    0x72,
    0x65,
    0x2f,
];

/// The bytes that follow the store prefix in `path`, as many as a hash has.
pub open spec fn hash_of(path: Seq<u8>) -> Option<Seq<u8>> {
    let start = STORE_PREFIX@.len() as int;
    if STORE_PREFIX@.is_prefix_of(path) && path.len() >= start + STORE_HASH_LEN {
        Some(path.subrange(start, start + STORE_HASH_LEN))
    } else {
        None
    }
}

/// Whether `s` starts with `prefix`.
pub fn has_prefix(s: &[u8], prefix: &[u8]) -> (r: bool)
    ensures
        r == prefix@.is_prefix_of(s@),
{
    if prefix.len() > s.len() {
        return false;
    }
    let mut i: usize = 0;
    while i < prefix.len()
        invariant
            prefix@.len() <= s@.len(),
            i <= prefix@.len(),
            forall|j: int| 0 <= j < i ==> s@[j] == prefix@[j],
        decreases prefix.len() - i,
    {
        if s[i] != prefix[i] {
            assert(s@.subrange(0, prefix@.len() as int)[i as int] != prefix@[i as int]);
            return false;
        }
        i = i + 1;
    }
    assert(prefix@ =~= s@.subrange(0, prefix@.len() as int));
    true
}

/// The hash that stands in `bytes` at `start`.
pub fn hash_at(bytes: &[u8], start: usize) -> (h: StoreHash)
    requires
        start + STORE_HASH_LEN <= bytes@.len(),
    ensures
        h@ == bytes@.subrange(start as int, start + STORE_HASH_LEN),
{
    let mut h: StoreHash = [0u8; STORE_HASH_LEN];
    let mut i: usize = 0;
    let len: usize = bytes.len();
    while i < STORE_HASH_LEN
        invariant
            i <= STORE_HASH_LEN,
            start + STORE_HASH_LEN <= len,
            len == bytes@.len(),
            h@.len() == STORE_HASH_LEN,
            forall|j: int| 0 <= j < i ==> h@[j] == bytes@[start + j],
        decreases STORE_HASH_LEN - i,
    {
        h[i] = bytes[start + i];
        i = i + 1;
    }
    assert(h@ =~= bytes@.subrange(start as int, start + STORE_HASH_LEN));
    h
}

/// The hash of a store path; nothing for any other path, or for one that is too short.
pub fn store_hash(path: &str) -> (r: Option<StoreHash>)
    ensures
        match r {
            Some(h) => hash_of(encode_utf8(path@)) == Some(h@),
            None => hash_of(encode_utf8(path@)) is None,
        },
{
    let bytes = path.as_bytes();
    if !has_prefix(bytes, STORE_PREFIX.as_slice()) {
        return None;
    }
    if bytes.len() - STORE_PREFIX.len() < STORE_HASH_LEN {
        return None;
    }
    Some(hash_at(bytes, STORE_PREFIX.len()))
}

/// The order of byte strings of one length: the first difference decides.
pub open spec fn less(a: Seq<u8>, b: Seq<u8>) -> bool {
    exists|k: int|
        0 <= k < a.len() && k < b.len() && #[trigger] a[k] < b[k] && (forall|j: int|
            0 <= j < k ==> a[j] == b[j])
}

proof fn lemma_less_transitive(a: Seq<u8>, b: Seq<u8>, c: Seq<u8>)
    requires
        less(a, b),
        less(b, c),
    ensures
        less(a, c),
{
    let i = choose|k: int|
        0 <= k < a.len() && k < b.len() && #[trigger] a[k] < b[k] && (forall|j: int|
            0 <= j < k ==> a[j] == b[j]);
    let k = choose|k: int|
        0 <= k < b.len() && k < c.len() && #[trigger] b[k] < c[k] && (forall|j: int|
            0 <= j < k ==> b[j] == c[j]);
    let m = if i < k {
        i
    } else {
        k
    };
    assert(a[m] < c[m]);
}

proof fn lemma_less_irreflexive(a: Seq<u8>)
    ensures
        !less(a, a),
{
}

/// How one hash stands to another.
enum Order {
    Before,
    Same,
    After,
}

fn order(a: &StoreHash, b: &StoreHash) -> (r: Order)
    ensures
        match r {
            Order::Before => less(a@, b@),
            Order::Same => a@ == b@,
            Order::After => less(b@, a@),
        },
{
    let mut i: usize = 0;
    while i < STORE_HASH_LEN
        invariant
            i <= STORE_HASH_LEN,
            a@.len() == STORE_HASH_LEN,
            b@.len() == STORE_HASH_LEN,
            forall|j: int| 0 <= j < i ==> a@[j] == b@[j],
        decreases STORE_HASH_LEN - i,
    {
        if a[i] < b[i] {
            assert(a@[i as int] < b@[i as int]);
            return Order::Before;
        }
        if b[i] < a[i] {
            assert(b@[i as int] < a@[i as int]);
            return Order::After;
        }
        i = i + 1;
    }
    assert(a@ =~= b@);
    Order::Same
}

/// The bytes of each hash in a list.
pub open spec fn hashes(list: Seq<StoreHash>) -> Seq<Seq<u8>> {
    list.map_values(|h: StoreHash| h@)
}

/// A set of store hashes, kept in order.
pub struct StoreSet {
    items: Vec<StoreHash>,
}

impl View for StoreSet {
    type V = Set<Seq<u8>>;

    closed spec fn view(&self) -> Set<Seq<u8>> {
        hashes(self.items@).to_set()
    }
}

impl StoreSet {
    /// The items stand in strict order, so that none occurs twice.
    pub closed spec fn wf(&self) -> bool {
        forall|i: int, j: int|
            0 <= i < j < self.items@.len() ==> less(#[trigger] self.items@[i]@, #[trigger] self.items@[j]@)
    }

    pub fn new() -> (r: StoreSet)
        ensures
            r.wf(),
            r@ == Set::<Seq<u8>>::empty(),
    {
        let r = StoreSet { items: Vec::new() };
        assert(hashes(r.items@) =~= Seq::<Seq<u8>>::empty());
        assert(r@ =~= Set::<Seq<u8>>::empty());
        r
    }

    proof fn lemma_contains(&self, x: Seq<u8>)
        ensures
            self@.contains(x) <==> exists|i: int|
                0 <= i < self.items@.len() && #[trigger] self.items@[i]@ == x,
    {
        let s = hashes(self.items@);
        if self@.contains(x) {
            let i = choose|i: int| 0 <= i < s.len() && s[i] == x;
            assert(self.items@[i]@ == x);
        }
        if exists|i: int| 0 <= i < self.items@.len() && #[trigger] self.items@[i]@ == x {
            let i = choose|i: int| 0 <= i < self.items@.len() && #[trigger] self.items@[i]@ == x;
            assert(s[i] == x);
        }
    }

    proof fn lemma_no_duplicates(&self)
        requires
            self.wf(),
        ensures
            hashes(self.items@).no_duplicates(),
    {
        let s = hashes(self.items@);
        assert forall|i: int, j: int| 0 <= i < s.len() && 0 <= j < s.len() && i != j implies s[i]
            != s[j] by {
            lemma_less_irreflexive(s[i]);
            if i < j {
                assert(less(self.items@[i]@, self.items@[j]@));
            } else {
                assert(less(self.items@[j]@, self.items@[i]@));
            }
        }
    }

    /// A set of hashes is finite.
    pub proof fn lemma_finite(&self)
        ensures
            self@.finite(),
    {
        vstd::seq_lib::seq_to_set_is_finite(hashes(self.items@));
    }

    /// How many hashes are in the set.
    pub fn len(&self) -> (n: usize)
        requires
            self.wf(),
        ensures
            n == self@.len(),
            self@.finite(),
    {
        proof {
            self.lemma_no_duplicates();
            self.lemma_finite();
            hashes(self.items@).unique_seq_to_set();
        }
        self.items.len()
    }

    /// Where `hash` stands, or would stand, and whether it is there.
    fn position(&self, hash: &StoreHash) -> (r: (bool, usize))
        requires
            self.wf(),
        ensures
            r.0 == self@.contains(hash@),
            r.1 <= self.items@.len(),
            r.0 ==> r.1 < self.items@.len() && self.items@[r.1 as int]@ == hash@,
            forall|i: int| 0 <= i < r.1 ==> less(#[trigger] self.items@[i]@, hash@),
            !r.0 ==> forall|i: int|
                r.1 <= i < self.items@.len() ==> less(hash@, #[trigger] self.items@[i]@),
    {
        let mut low: usize = 0;
        let mut high: usize = self.items.len();
        while low < high
            invariant
                self.wf(),
                low <= high <= self.items@.len(),
                forall|i: int| 0 <= i < low ==> less(#[trigger] self.items@[i]@, hash@),
                forall|i: int| high <= i < self.items@.len() ==> less(hash@, #[trigger] self.items@[i]@),
            decreases high - low,
        {
            let mid = low + (high - low) / 2;
            match order(&self.items[mid], hash) {
                Order::Before => {
                    assert forall|i: int| 0 <= i < mid + 1 implies less(
                        #[trigger] self.items@[i]@,
                        hash@,
                    ) by {
                        if i < mid {
                            lemma_less_transitive(self.items@[i]@, self.items@[mid as int]@, hash@);
                        }
                    }
                    low = mid + 1;
                },
                Order::Same => {
                    proof {
                        self.lemma_contains(hash@);
                        assert(self.items@[mid as int]@ == hash@);
                    }
                    return (true, mid);
                },
                Order::After => {
                    assert forall|i: int| mid <= i < self.items@.len() implies less(
                        hash@,
                        #[trigger] self.items@[i]@,
                    ) by {
                        if mid < i {
                            lemma_less_transitive(hash@, self.items@[mid as int]@, self.items@[i]@);
                        }
                    }
                    high = mid;
                },
            }
        }
        proof {
            self.lemma_contains(hash@);
            lemma_less_irreflexive(hash@);
        }
        (false, low)
    }

    /// Whether `hash` is in the set.
    pub fn contains(&self, hash: &StoreHash) -> (r: bool)
        requires
            self.wf(),
        ensures
            r == self@.contains(hash@),
    {
        self.position(hash).0
    }

    /// Adds `hash`, and says whether it was not there before.
    pub fn insert(&mut self, hash: StoreHash) -> (added: bool)
        requires
            old(self).wf(),
        ensures
            final(self).wf(),
            final(self)@ == old(self)@.insert(hash@),
            added == !old(self)@.contains(hash@),
    {
        let ghost before = *self;
        let (found, at) = self.position(&hash);
        if found {
            assert(self@ =~= self@.insert(hash@));
            return false;
        }
        self.items.insert(at, hash);
        proof {
            assert forall|i: int, j: int| 0 <= i < j < self.items@.len() implies less(
                #[trigger] self.items@[i]@,
                #[trigger] self.items@[j]@,
            ) by {
                let ghost bi = if i < at { i } else { i - 1 };
                let ghost bj = if j < at { j } else { j - 1 };
                if i != at && j != at {
                    assert(self.items@[i] == before.items@[bi]);
                    assert(self.items@[j] == before.items@[bj]);
                } else if i == at {
                    assert(self.items@[j] == before.items@[bj]);
                } else {
                    assert(self.items@[i] == before.items@[bi]);
                }
            }
            assert forall|x: Seq<u8>| self@.contains(x) == before@.insert(hash@).contains(x) by {
                self.lemma_contains(x);
                before.lemma_contains(x);
                if self@.contains(x) && x != hash@ {
                    let i = choose|i: int| 0 <= i < self.items@.len() && #[trigger] self.items@[i]@ == x;
                    let bi = if i < at { i } else { i - 1 };
                    assert(before.items@[bi]@ == x);
                }
                if before@.contains(x) {
                    let i = choose|i: int| 0 <= i < before.items@.len() && #[trigger] before.items@[i]@ == x;
                    let ai = if i < at { i } else { i + 1 };
                    assert(self.items@[ai]@ == x);
                }
                assert(self.items@[at as int]@ == hash@);
            }
            assert(self@ =~= before@.insert(hash@));
        }
        true
    }

    /// Takes `hash` out, and says whether it was there.
    pub fn remove(&mut self, hash: &StoreHash) -> (removed: bool)
        requires
            old(self).wf(),
        ensures
            final(self).wf(),
            final(self)@ == old(self)@.remove(hash@),
            removed == old(self)@.contains(hash@),
    {
        let ghost before = *self;
        let (found, at) = self.position(hash);
        if !found {
            assert(self@ =~= self@.remove(hash@));
            return false;
        }
        let _gone = self.items.remove(at);
        proof {
            assert forall|i: int, j: int| 0 <= i < j < self.items@.len() implies less(
                #[trigger] self.items@[i]@,
                #[trigger] self.items@[j]@,
            ) by {
                let bi = if i < at { i } else { i + 1 };
                let bj = if j < at { j } else { j + 1 };
                assert(self.items@[i] == before.items@[bi]);
                assert(self.items@[j] == before.items@[bj]);
            }
            assert forall|x: Seq<u8>| self@.contains(x) == before@.remove(hash@).contains(x) by {
                self.lemma_contains(x);
                before.lemma_contains(x);
                if self@.contains(x) {
                    let i = choose|i: int| 0 <= i < self.items@.len() && #[trigger] self.items@[i]@ == x;
                    let bi = if i < at { i } else { i + 1 };
                    assert(before.items@[bi]@ == x);
                    lemma_less_irreflexive(x);
                    if bi < at {
                        assert(less(before.items@[bi]@, before.items@[at as int]@));
                    } else {
                        assert(less(before.items@[at as int]@, before.items@[bi]@));
                    }
                }
                if before@.contains(x) && x != hash@ {
                    let i = choose|i: int| 0 <= i < before.items@.len() && #[trigger] before.items@[i]@ == x;
                    let ai = if i < at { i } else { i - 1 };
                    assert(self.items@[ai]@ == x);
                }
            }
            assert(self@ =~= before@.remove(hash@));
        }
        true
    }

    /// The hashes of the set, each once.
    pub fn to_vec(&self) -> (r: Vec<StoreHash>)
        requires
            self.wf(),
        ensures
            hashes(r@).to_set() == self@,
            hashes(r@).no_duplicates(),
    {
        proof {
            self.lemma_no_duplicates();
        }
        let mut r: Vec<StoreHash> = Vec::new();
        let mut i: usize = 0;
        while i < self.items.len()
            invariant
                i <= self.items@.len(),
                r@ == self.items@.take(i as int),
            decreases self.items.len() - i,
        {
            r.push(self.items[i]);
            i = i + 1;
        }
        assert(r@ == self.items@);
        r
    }

    /// A set with the same hashes.
    pub fn copy(&self) -> (r: StoreSet)
        requires
            self.wf(),
        ensures
            r.wf(),
            r@ == self@,
    {
        let mut items: Vec<StoreHash> = Vec::new();
        let mut i: usize = 0;
        while i < self.items.len()
            invariant
                i <= self.items@.len(),
                items@ == self.items@.take(i as int),
            decreases self.items.len() - i,
        {
            items.push(self.items[i]);
            i = i + 1;
        }
        assert(items@ == self.items@);
        StoreSet { items }
    }

    /// Adds every hash of `other`.
    pub fn extend(&mut self, other: &StoreSet)
        requires
            old(self).wf(),
            other.wf(),
        ensures
            final(self).wf(),
            final(self)@ == old(self)@.union(other@),
    {
        let ghost before = self@;
        let mut i: usize = 0;
        assert(self@ =~= before.union(hashes(other.items@.take(0)).to_set()));
        while i < other.items.len()
            invariant
                self.wf(),
                i <= other.items@.len(),
                self@ == before.union(hashes(other.items@.take(i as int)).to_set()),
            decreases other.items.len() - i,
        {
            let _added = self.insert(other.items[i]);
            proof {
                let seen = hashes(other.items@.take(i as int));
                let next = hashes(other.items@.take(i + 1));
                assert(next =~= seen.push(other.items@[i as int]@));
                assert(next.to_set() =~= seen.to_set().insert(other.items@[i as int]@)) by {
                    broadcast use vstd::seq_lib::group_seq_properties;
                }
                assert(self@ =~= before.union(next.to_set()));
            }
            i = i + 1;
        }
        assert(other.items@.take(i as int) == other.items@);
    }

    /// Whether every hash of the set is in `other`.
    pub fn is_subset(&self, other: &StoreSet) -> (r: bool)
        requires
            self.wf(),
            other.wf(),
        ensures
            r == self@.subset_of(other@),
    {
        let mut i: usize = 0;
        while i < self.items.len()
            invariant
                self.wf(),
                other.wf(),
                i <= self.items@.len(),
                forall|j: int| 0 <= j < i ==> other@.contains(#[trigger] self.items@[j]@),
            decreases self.items.len() - i,
        {
            if !other.contains(&self.items[i]) {
                proof {
                    self.lemma_contains(self.items@[i as int]@);
                }
                return false;
            }
            i = i + 1;
        }
        assert forall|x: Seq<u8>| self@.contains(x) implies other@.contains(x) by {
            self.lemma_contains(x);
        }
        true
    }

    /// The hashes of the set that are not in `other`, each once.
    pub fn difference(&self, other: &StoreSet) -> (r: Vec<StoreHash>)
        requires
            self.wf(),
            other.wf(),
        ensures
            hashes(r@).to_set() == self@.difference(other@),
            hashes(r@).no_duplicates(),
    {
        proof {
            self.lemma_no_duplicates();
        }
        let mut r: Vec<StoreHash> = Vec::new();
        let mut i: usize = 0;
        assert(hashes(r@).to_set() =~= hashes(self.items@.take(0)).to_set().difference(other@));
        while i < self.items.len()
            invariant
                self.wf(),
                other.wf(),
                i <= self.items@.len(),
                hashes(self.items@).no_duplicates(),
                hashes(r@).no_duplicates(),
                hashes(r@).to_set() == hashes(self.items@.take(i as int)).to_set().difference(other@),
            decreases self.items.len() - i,
        {
            let ghost seen = hashes(self.items@.take(i as int));
            let ghost next = hashes(self.items@.take(i + 1));
            let ghost x = self.items@[i as int]@;
            let ghost before = hashes(r@);
            proof {
                assert(next =~= seen.push(x));
                assert(next.to_set() =~= seen.to_set().insert(x)) by {
                    broadcast use vstd::seq_lib::group_seq_properties;
                }
                if before.contains(x) {
                    assert(before.to_set().contains(x));
                    let k = choose|k: int| 0 <= k < seen.len() && seen[k] == x;
                    assert(hashes(self.items@)[k] == x);
                    assert(hashes(self.items@)[i as int] == x);
                }
            }
            if !other.contains(&self.items[i]) {
                r.push(self.items[i]);
                proof {
                    assert(hashes(r@) =~= before.push(x));
                    assert(hashes(r@).to_set() =~= before.to_set().insert(x)) by {
                        broadcast use vstd::seq_lib::group_seq_properties;
                    }
                }
            }
            assert(hashes(r@).to_set() =~= next.to_set().difference(other@));
            i = i + 1;
        }
        assert(self.items@.take(i as int) == self.items@);
        r
    }
}

/// The hashes of the store paths among `listed`, each of which may have white space around it.
pub open spec fn listed_hashes(listed: Seq<Seq<char>>) -> Set<Seq<u8>> {
    Set::new(
        |h: Seq<u8>|
            exists|i: int|
                0 <= i < listed.len() && hash_of(encode_utf8(text::trimmed(#[trigger] listed[i])))
                    == Some(h),
    )
}

proof fn lemma_listed_push(listed: Seq<Seq<char>>, line: Seq<char>)
    ensures
        listed_hashes(listed.push(line)) == match hash_of(encode_utf8(text::trimmed(line))) {
            Some(h) => listed_hashes(listed).insert(h),
            None => listed_hashes(listed),
        },
{
    let more = listed.push(line);
    let found = hash_of(encode_utf8(text::trimmed(line)));
    let expected = match found {
        Some(h) => listed_hashes(listed).insert(h),
        None => listed_hashes(listed),
    };
    assert forall|h: Seq<u8>| listed_hashes(more).contains(h) == expected.contains(h) by {
        if listed_hashes(listed).contains(h) {
            let i = choose|i: int|
                0 <= i < listed.len() && hash_of(encode_utf8(text::trimmed(#[trigger] listed[i])))
                    == Some(h);
            assert(more[i] == listed[i]);
        }
        if listed_hashes(more).contains(h) {
            let i = choose|i: int|
                0 <= i < more.len() && hash_of(encode_utf8(text::trimmed(#[trigger] more[i])))
                    == Some(h);
            if i < listed.len() {
                assert(more[i] == listed[i]);
            }
        }
        assert(more[listed.len() as int] == line);
    }
    assert(listed_hashes(more) =~= expected);
}

/// Adds the hash of every store path in a listing with one path per line.
pub fn add_listing(set: &mut StoreSet, listing: &str)
    requires
        old(set).wf(),
    ensures
        final(set).wf(),
        final(set)@ == old(set)@.union(listed_hashes(text::lines(listing@))),
{
    let ghost before = set@;
    let ghost mut seen: Seq<Seq<char>> = Seq::empty();
    let mut rest: &str = listing;
    assert(set@ =~= before.union(listed_hashes(seen)));
    assert(seen + text::lines(rest@) =~= text::lines(listing@));
    while !rest.is_empty()
        invariant
            set.wf(),
            set@ == before.union(listed_hashes(seen)),
            seen + text::lines(rest@) == text::lines(listing@),
        decreases rest@.len(),
    {
        let ghost whole = rest@;
        proof {
            text::lemma_find_bounds(whole, '\n');
        }
        let (line, tail): (&str, &str) = match text::split_once(rest, 0x0a) {
            Some(parts) => parts,
            None => (rest, ""),
        };
        proof {
            reveal_strlit("");
            assert(tail@.len() < whole.len());
        }
        let ghost shown = if text::find(whole, '\n') < whole.len() {
            text::strip_carriage_return(line@)
        } else {
            line@
        };
        proof {
            text::lemma_trimmed_carriage_return(line@);
            assert(text::trimmed(shown) == text::trimmed(line@));
            assert(text::lines(whole) =~= seq![shown] + text::lines(tail@));
            lemma_listed_push(seen, shown);
        }
        if let Some(hash) = store_hash(text::trim(line)) {
            let _added = set.insert(hash);
        }
        proof {
            assert(set@ =~= before.union(listed_hashes(seen.push(shown))));
            assert(seen.push(shown) + text::lines(tail@) =~= seen + text::lines(whole));
            seen = seen.push(shown);
        }
        rest = tail;
    }
    assert(seen =~= text::lines(listing@));
}

/// The store prefix as text.
pub proof fn lemma_prefix_text()
    ensures
        STORE_PREFIX@ == encode_utf8("/nix/store/"@),
{
    reveal_strlit("/nix/store/");
    let t = "/nix/store/"@;
    assert(is_ascii_chars(t));
    is_ascii_chars_encode_utf8(t);
    assert forall|i: int| 0 <= i < 11 implies STORE_PREFIX@[i] == encode_utf8(t)[i] by {
        assert(encode_utf8(t)[i] == t[i] as u8);
    }
    assert(STORE_PREFIX@ =~= encode_utf8(t));
}

/// The hash of a store path is the 32 bytes behind `/nix/store/`, whatever they are and whatever
/// follows them.
pub proof fn law_hash_behind_prefix(hash: Seq<u8>, rest: Seq<u8>)
    requires
        hash.len() == 32,
    ensures
        hash_of(encode_utf8("/nix/store/"@) + hash + rest) == Some(hash),
{
    lemma_prefix_text();
    let path = STORE_PREFIX@ + hash + rest;
    assert(STORE_PREFIX@ =~= path.subrange(0, 11));
    assert(path.subrange(11, 43) =~= hash);
}

/// Only a path that starts with `/nix/store/` and has 32 bytes behind that has a hash.
pub proof fn law_hash_needs_prefix(path: Seq<u8>)
    ensures
        hash_of(path) is Some <==> encode_utf8("/nix/store/"@).is_prefix_of(path) && path.len()
            >= encode_utf8("/nix/store/"@).len() + 32,
        hash_of(path) matches Some(hash) ==> hash.len() == 32 && (encode_utf8("/nix/store/"@)
            + hash).is_prefix_of(path),
{
    lemma_prefix_text();
    if let Some(hash) = hash_of(path) {
        assert(STORE_PREFIX@ == path.subrange(0, 11));
        assert forall|i: int| 0 <= i < 43 implies (STORE_PREFIX@ + hash)[i] == path[i] by {
            if i < 11 {
                assert(path.subrange(0, 11)[i] == path[i]);
            }
        }
        assert(STORE_PREFIX@ + hash =~= path.subrange(0, 43));
    }
}

/// The hashes in a list are the members of the list, in order.
pub proof fn law_hashes(list: Seq<StoreHash>)
    ensures
        hashes(list).len() == list.len(),
        forall|i: int| 0 <= i < list.len() ==> #[trigger] hashes(list)[i] == list[i]@,
{
}

/// A listing is read line by line: what a line adds does not depend on the others. A line with a
/// store path, with white space around it or not, adds the hash of that path, whatever it is. Any
/// other line adds nothing.
pub proof fn law_listed(
    listed: Seq<Seq<char>>,
    before: Seq<char>,
    line: Seq<char>,
    after: Seq<char>,
)
    requires
        forall|i: int| 0 <= i < before.len() ==> text::is_white_space(before[i]),
        forall|i: int| 0 <= i < after.len() ==> text::is_white_space(after[i]),
        line.len() > 0 ==> !text::is_white_space(line[0]) && !text::is_white_space(line.last()),
    ensures
        listed_hashes(Seq::<Seq<char>>::empty()) == Set::<Seq<u8>>::empty(),
        ({
            let bytes = encode_utf8(line);
            let prefix = encode_utf8("/nix/store/"@);
            let n = prefix.len() as int;
            listed_hashes(listed.push(before + line + after)) == if prefix.is_prefix_of(bytes)
                && bytes.len() >= n + 32 {
                listed_hashes(listed).insert(bytes.subrange(n, n + 32))
            } else {
                listed_hashes(listed)
            }
        }),
{
    lemma_prefix_text();
    text::law_trimmed(before, line, after);
    lemma_listed_push(listed, before + line + after);
    assert(listed_hashes(Seq::<Seq<char>>::empty()) =~= Set::<Seq<u8>>::empty());
}

} // verus!
