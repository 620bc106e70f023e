//! Character assets, the deduplicating asset cache, and the archive loader.
//!
//! A [`Character`] is an immutable byte payload with an optional media-type
//! tag, content-addressed by both.  The [`CharacterCache`] keeps one entry
//! per distinct content together with an owner count; a [`CharacterSet`]
//! references cache entries by identifier, so cloning a set copies nothing
//! but identifiers.  Loading an archive selects qualifying images in random
//! order, decodes them, and interns them in the cache, reusing any entry
//! with identical content.

use vstd::prelude::*;

use crate::LoadError;
use crate::NUM_CHARS;

verus! {

/// Compare two byte vectors by content.
pub fn bytes_eq(a: &Vec<u8>, b: &Vec<u8>) -> (r: bool)
    ensures
        r == (a@ == b@),
{
    if a.len() != b.len() {
        return false;
    }
    let mut i: usize = 0;
    while i < a.len()
        invariant
            a@.len() == b@.len(),
            i <= a@.len(),
            forall|j: int| 0 <= j < i ==> a@[j] == b@[j],
        decreases a@.len() - i,
    {
        if a[i] != b[i] {
            return false;
        }
        i = i + 1;
    }
    proof {
        assert(a@ =~= b@);
    }
    true
}

/// Copy a byte vector.
pub fn clone_bytes(a: &Vec<u8>) -> (r: Vec<u8>)
    ensures
        r@ == a@,
{
    let mut r: Vec<u8> = Vec::new();
    let mut i: usize = 0;
    while i < a.len()
        invariant
            i <= a@.len(),
            r@ == a@.subrange(0, i as int),
        decreases a@.len() - i,
    {
        r.push(a[i]);
        i = i + 1;
    }
    proof {
        assert(a@.subrange(0, a@.len() as int) =~= a@);
    }
    r
}

/// Does `v` start with `p`?
pub fn has_byte_prefix(v: &Vec<u8>, p: &Vec<u8>) -> (r: bool)
    ensures
        r == (v@.len() >= p@.len() && v@.subrange(0, p@.len() as int) == p@),
{
    if v.len() < p.len() {
        return false;
    }
    let mut i: usize = 0;
    while i < p.len()
        invariant
            v@.len() >= p@.len(),
            i <= p@.len(),
            forall|j: int| 0 <= j < i ==> v@[j] == p@[j],
        decreases p@.len() - i,
    {
        if v[i] != p[i] {
            return false;
        }
        i = i + 1;
    }
    proof {
        assert(v@.subrange(0, p@.len() as int) =~= p@);
    }
    true
}

/// One immutable character asset: its decoded bytes and an optional
/// media-type tag such as `image/png`.
#[derive(Debug)]
pub struct Character {
    pub content_type: Option<Vec<u8>>,
    pub data: Vec<u8>,
}

impl Character {
    /// The media-type tag as a sequence, if any.
    pub open spec fn tag_view(&self) -> Option<Seq<u8>> {
        match self.content_type {
            Some(t) => Some(t@),
            None => None,
        }
    }

    /// Length of the stored media-type tag, in bytes.
    pub open spec fn tag_len(&self) -> int {
        match self.content_type {
            Some(t) => t@.len() as int,
            None => 0,
        }
    }

    /// Size of the asset: payload length plus stored tag length.
    pub open spec fn spec_size(&self) -> int {
        self.tag_len() + self.data@.len()
    }

    /// Two assets with identical bytes and tag are interchangeable.
    pub open spec fn same_content(&self, other: &Character) -> bool {
        self.data@ == other.data@ && self.tag_view() == other.tag_view()
    }

    /// Size of the asset: payload length plus stored tag length.
    pub fn size(&self) -> (r: u128)
        ensures
            r == self.spec_size(),
    {
        let tag: u128 = match &self.content_type {
            Some(t) => t.len() as u128,
            None => 0,
        };
        tag + (self.data.len() as u128)
    }

    /// Content equality.
    pub fn matches(&self, other: &Character) -> (r: bool)
        ensures
            r == self.same_content(other),
    {
        let tags_equal = match (&self.content_type, &other.content_type) {
            (Some(a), Some(b)) => bytes_eq(a, b),
            (None, None) => true,
            _ => false,
        };
        tags_equal && bytes_eq(&self.data, &other.data)
    }
}

impl Clone for Character {
    fn clone(&self) -> (r: Self)
        ensures
            r.same_content(self),
    {
        let content_type = match &self.content_type {
            Some(t) => Some(clone_bytes(t)),
            None => None,
        };
        Character { content_type, data: clone_bytes(&self.data) }
    }
}

/// A fixed-size board of exactly [`NUM_CHARS`] characters, referencing cache
/// entries by identifier; cloning copies identifiers, not bytes.
#[derive(Debug)]
pub struct CharacterSet(pub Vec<u64>);

impl CharacterSet {
    /// A proper set references one cache entry per board cell.
    pub open spec fn wf(&self) -> bool {
        self.0@.len() == NUM_CHARS
    }
}

impl Clone for CharacterSet {
    fn clone(&self) -> (r: Self)
        ensures
            r.0@ == self.0@,
    {
        let mut ids: Vec<u64> = Vec::new();
        let mut i: usize = 0;
        while i < self.0.len()
            invariant
                i <= self.0@.len(),
                ids@ == self.0@.subrange(0, i as int),
            decreases self.0@.len() - i,
        {
            ids.push(self.0[i]);
            i = i + 1;
        }
        proof {
            assert(self.0@.subrange(0, self.0@.len() as int) =~= self.0@);
        }
        CharacterSet(ids)
    }
}

/// One cache slot: a distinct content, its identifier, and how many owners
/// (character sets) currently reference it.
#[derive(Debug)]
pub struct CacheEntry {
    pub id: u64,
    pub owners: u64,
    pub character: Character,
}

/// Sum of the sizes of the cached assets.
pub open spec fn sum_sizes(s: Seq<CacheEntry>) -> int
    decreases s.len(),
{
    if s.len() == 0 {
        0
    } else {
        sum_sizes(s.drop_last()) + s.last().character.spec_size()
    }
}

/// Index of the first cache entry whose content equals `c` and whose owner
/// count can still grow, if any.
pub open spec fn find_match(s: Seq<CacheEntry>, c: Character) -> Option<int>
    decreases s.len(),
{
    if s.len() == 0 {
        None
    } else if s[0].character.same_content(&c) && s[0].owners < u64::MAX {
        Some(0)
    } else {
        match find_match(s.drop_first(), c) {
            Some(i) => Some(i + 1),
            None => None,
        }
    }
}

/// Index of the cache entry with identifier `id`, if present.
pub open spec fn find_id(s: Seq<CacheEntry>, id: u64) -> Option<int>
    decreases s.len(),
{
    if s.len() == 0 {
        None
    } else if s[0].id == id {
        Some(0)
    } else {
        match find_id(s.drop_first(), id) {
            Some(i) => Some(i + 1),
            None => None,
        }
    }
}

/// An entry with one more owner; the count pins at `u64::MAX` rather than
/// wrapping.
pub open spec fn bump_owner(e: CacheEntry) -> CacheEntry {
    if e.owners < u64::MAX {
        CacheEntry { id: e.id, owners: (e.owners + 1) as u64, character: e.character }
    } else {
        e
    }
}

/// What interning one character does to the cache model: on a content hit
/// the matching entry gains an owner; on a miss a fresh entry with one owner
/// and the next identifier is appended.  Yields the new model, the next free
/// identifier and the identifier handed out.
pub open spec fn intern_spec(s: Seq<CacheEntry>, next: u64, c: Character) -> (
    Seq<CacheEntry>,
    u64,
    u64,
) {
    match find_match(s, c) {
        Some(i) => (s.update(i, bump_owner(s[i])), next, s[i].id),
        None => (
            s.push(CacheEntry { id: next, owners: 1, character: c }),
            (next + 1) as u64,
            next,
        ),
    }
}

/// What releasing one owner reference does to the cache model: the entry
/// with that identifier loses an owner and disappears when none are left;
/// an unknown identifier changes nothing.
pub open spec fn release_spec(s: Seq<CacheEntry>, id: u64) -> Seq<CacheEntry> {
    match find_id(s, id) {
        Some(i) => {
            if s[i].owners > 1 {
                s.update(
                    i,
                    CacheEntry {
                        id: s[i].id,
                        owners: (s[i].owners - 1) as u64,
                        character: s[i].character,
                    },
                )
            } else {
                s.remove(i)
            }
        },
        None => s,
    }
}

/// Releasing each identifier of `ids` in order, starting at position `k`.
pub open spec fn release_all_spec(s: Seq<CacheEntry>, ids: Seq<u64>, k: int) -> Seq<CacheEntry>
    decreases ids.len() - k,
{
    if k < 0 || k >= ids.len() {
        s
    } else {
        release_all_spec(release_spec(s, ids[k]), ids, k + 1)
    }
}

/// The deduplicating index over decoded character assets.  Every entry is
/// alive — it has at least one owner — so the aggregate size is the sum
/// over all entries; entries whose owners have all gone are removed at the
/// moment the last reference is released.
pub struct CharacterCache {
    entries: Vec<CacheEntry>,
    next_id: u64,
}

impl CharacterCache {
    /// The cached entries, in insertion order.
    pub closed spec fn spec_entries(&self) -> Seq<CacheEntry> {
        self.entries@
    }

    /// The identifier the next fresh entry will get.
    pub closed spec fn spec_next_id(&self) -> u64 {
        self.next_id
    }

    /// Well-formedness: identifiers are distinct and below the allocation
    /// counter, and every entry has at least one owner.
    pub open spec fn wf(&self) -> bool {
        &&& forall|i: int, j: int|
            0 <= i < j < self.spec_entries().len() ==> self.spec_entries()[i].id
                != self.spec_entries()[j].id
        &&& forall|i: int|
            0 <= i < self.spec_entries().len() ==> self.spec_entries()[i].id
                < self.spec_next_id()
        &&& forall|i: int|
            0 <= i < self.spec_entries().len() ==> self.spec_entries()[i].owners >= 1
    }

    /// Aggregate live size of the cache, in bytes.
    pub open spec fn spec_size(&self) -> int {
        sum_sizes(self.spec_entries())
    }

    /// An empty cache.
    pub fn new() -> (r: CharacterCache)
        ensures
            r.wf(),
            r.spec_entries() == Seq::<CacheEntry>::empty(),
            r.spec_next_id() == 0,
    {
        CharacterCache { entries: Vec::new(), next_id: 0 }
    }

    /// Aggregate live size: the sum of `size` over the cached assets (the
    /// sum is capped at `u128::MAX`, which no real memory can reach).
    pub fn size(&self) -> (r: u128)
        ensures
            sum_sizes(self.spec_entries()) <= u128::MAX ==> r == sum_sizes(self.spec_entries()),
            sum_sizes(self.spec_entries()) > u128::MAX ==> r == u128::MAX,
    {
        let mut total: u128 = 0;
        let mut i: usize = 0;
        while i < self.entries.len()
            invariant
                i <= self.entries@.len(),
                sum_sizes(self.entries@.subrange(0, i as int)) <= u128::MAX ==> total == sum_sizes(
                    self.entries@.subrange(0, i as int),
                ),
                sum_sizes(self.entries@.subrange(0, i as int)) > u128::MAX ==> total == u128::MAX,
                total <= u128::MAX,
            decreases self.entries@.len() - i,
        {
            proof {
                assert(self.entries@.subrange(0, i + 1).drop_last() =~= self.entries@.subrange(
                    0,
                    i as int,
                ));
                assert(self.entries@.subrange(0, i + 1).last() == self.entries@[i as int]);
                lemma_sum_sizes_nonneg(self.entries@.subrange(0, i as int));
            }
            let s = self.entries[i].character.size();
            if total <= u128::MAX - s {
                total = total + s;
            } else {
                total = u128::MAX;
            }
            i = i + 1;
        }
        proof {
            assert(self.entries@.subrange(0, self.entries@.len() as int) =~= self.entries@);
        }
        total
    }

    /// Intern one character: reuse the entry with identical content if one
    /// is alive and can take another owner, otherwise insert a fresh entry;
    /// either way the returned identifier now carries one more owner
    /// reference.
    pub fn intern(&mut self, c: Character) -> (id: u64)
        requires
            old(self).wf(),
            old(self).spec_next_id() < u64::MAX,
        ensures
            final(self).wf(),
            (final(self).spec_entries(), final(self).spec_next_id(), id) == intern_spec(
                old(self).spec_entries(),
                old(self).spec_next_id(),
                c,
            ),
    {
        let ghost orig = self.entries@;
        let mut i: usize = 0;
        while i < self.entries.len()
            invariant
                old(self).wf(),
                old(self).spec_next_id() < u64::MAX,
                orig == old(self).spec_entries(),
                self.entries@ == orig,
                self.next_id == old(self).spec_next_id(),
                i <= orig.len(),
                forall|j: int|
                    0 <= j < i ==> !((#[trigger] orig[j]).character.same_content(&c)
                        && orig[j].owners < u64::MAX),
            decreases orig.len() - i,
        {
            if self.entries[i].character.matches(&c) && self.entries[i].owners < u64::MAX {
                proof {
                    lemma_find_match_at(orig, c, i as int);
                }
                let id = self.entries[i].id;
                let bumped = self.entries[i].owners + 1;
                self.entries[i].owners = bumped;
                return id;
            }
            i = i + 1;
        }
        proof {
            lemma_find_match_none(orig, c, orig.len() as int);
        }
        let id = self.next_id;
        self.next_id = self.next_id + 1;
        self.entries.push(CacheEntry { id, owners: 1, character: c });
        id
    }

    /// Release one owner reference on the entry with identifier `id`; the
    /// entry disappears when its last owner is released.  An identifier not
    /// in the cache changes nothing.
    pub fn release(&mut self, id: u64)
        requires
            old(self).wf(),
        ensures
            final(self).wf(),
            final(self).spec_entries() == release_spec(old(self).spec_entries(), id),
            final(self).spec_next_id() == old(self).spec_next_id(),
    {
        let ghost orig = self.entries@;
        let mut i: usize = 0;
        while i < self.entries.len()
            invariant
                old(self).wf(),
                orig == old(self).spec_entries(),
                self.entries@ == orig,
                self.next_id == old(self).spec_next_id(),
                i <= orig.len(),
                forall|j: int| 0 <= j < i ==> orig[j].id != id,
            decreases orig.len() - i,
        {
            if self.entries[i].id == id {
                proof {
                    lemma_find_id_at(orig, id, i as int);
                }
                if self.entries[i].owners > 1 {
                    let lowered = self.entries[i].owners - 1;
                    self.entries[i].owners = lowered;
                } else {
                    self.entries.remove(i);
                }
                return ;
            }
            i = i + 1;
        }
        proof {
            lemma_find_id_none(orig, id, orig.len() as int);
        }
    }

    /// Release every owner reference a character set holds.
    pub fn release_set(&mut self, set: &CharacterSet)
        requires
            old(self).wf(),
        ensures
            final(self).wf(),
            final(self).spec_entries() == release_all_spec(old(self).spec_entries(), set.0@, 0),
            final(self).spec_next_id() == old(self).spec_next_id(),
    {
        let mut k: usize = 0;
        while k < set.0.len()
            invariant
                self.wf(),
                k <= set.0@.len(),
                release_all_spec(old(self).spec_entries(), set.0@, 0) == release_all_spec(
                    self.spec_entries(),
                    set.0@,
                    k as int,
                ),
                self.spec_next_id() == old(self).spec_next_id(),
            decreases set.0@.len() - k,
        {
            self.release(set.0[k]);
            k = k + 1;
        }
    }
}

impl Default for CharacterCache {
    /// An empty cache.
    fn default() -> (r: CharacterCache)
        ensures
            r.wf(),
            r.spec_entries() == Seq::<CacheEntry>::empty(),
            r.spec_next_id() == 0,
    {
        CharacterCache::new()
    }
}

/// Sizes are never negative, so the aggregate only grows with more entries.
pub proof fn lemma_sum_sizes_nonneg(s: Seq<CacheEntry>)
    ensures
        sum_sizes(s) >= 0,
    decreases s.len(),
{
    if s.len() > 0 {
        lemma_sum_sizes_nonneg(s.drop_last());
    }
}

proof fn lemma_find_match_at(s: Seq<CacheEntry>, c: Character, i: int)
    requires
        0 <= i < s.len(),
        s[i].character.same_content(&c),
        s[i].owners < u64::MAX,
        forall|j: int|
            0 <= j < i ==> !(s[j].character.same_content(&c) && s[j].owners < u64::MAX),
    ensures
        find_match(s, c) == Some(i),
    decreases i,
{
    if i > 0 {
        assert(s.drop_first()[i - 1] == s[i]);
        assert(forall|j: int| 0 <= j < i - 1 ==> s.drop_first()[j] == s[j + 1]);
        lemma_find_match_at(s.drop_first(), c, i - 1);
    }
}

proof fn lemma_find_match_none(s: Seq<CacheEntry>, c: Character, n: int)
    requires
        n == s.len(),
        forall|j: int|
            0 <= j < n ==> !(s[j].character.same_content(&c) && s[j].owners < u64::MAX),
    ensures
        find_match(s, c) is None,
    decreases n,
{
    if n > 0 {
        assert(forall|j: int| 0 <= j < n - 1 ==> s.drop_first()[j] == s[j + 1]);
        lemma_find_match_none(s.drop_first(), c, n - 1);
    }
}

proof fn lemma_find_id_at(s: Seq<CacheEntry>, id: u64, i: int)
    requires
        0 <= i < s.len(),
        s[i].id == id,
        forall|j: int| 0 <= j < i ==> s[j].id != id,
    ensures
        find_id(s, id) == Some(i),
    decreases i,
{
    if i > 0 {
        assert(s.drop_first()[i - 1] == s[i]);
        assert(forall|j: int| 0 <= j < i - 1 ==> s.drop_first()[j] == s[j + 1]);
        lemma_find_id_at(s.drop_first(), id, i - 1);
    }
}

proof fn lemma_find_id_none(s: Seq<CacheEntry>, id: u64, n: int)
    requires
        n == s.len(),
        forall|j: int| 0 <= j < n ==> s[j].id != id,
    ensures
        find_id(s, id) is None,
    decreases n,
{
    if n > 0 {
        assert(forall|j: int| 0 <= j < n - 1 ==> s.drop_first()[j] == s[j + 1]);
        lemma_find_id_none(s.drop_first(), id, n - 1);
    }
}

/// Deduplication law: interning a character whose content is already alive
/// in the cache leaves the aggregate size unchanged — the bytes are counted
/// once, not twice.
pub proof fn lemma_intern_dedup(s: Seq<CacheEntry>, next: u64, c: Character)
    requires
        find_match(s, c) is Some,
    ensures
        sum_sizes(intern_spec(s, next, c).0) == sum_sizes(s),
{
    let i = find_match(s, c).unwrap();
    lemma_find_match_in_range(s, c);
    lemma_sum_sizes_update_same_size(s, i, bump_owner(s[i]));
}

/// A found match is a real index with matching content.
pub proof fn lemma_find_match_in_range(s: Seq<CacheEntry>, c: Character)
    requires
        find_match(s, c) is Some,
    ensures
        0 <= find_match(s, c).unwrap() < s.len(),
        s[find_match(s, c).unwrap()].character.same_content(&c),
        s[find_match(s, c).unwrap()].owners < u64::MAX,
    decreases s.len(),
{
    if s.len() > 0 && !(s[0].character.same_content(&c) && s[0].owners < u64::MAX) {
        lemma_find_match_in_range(s.drop_first(), c);
        assert(s.drop_first()[find_match(s.drop_first(), c).unwrap()] == s[find_match(
            s.drop_first(),
            c,
        ).unwrap() + 1]);
    }
}

/// Replacing an entry by one of the same size leaves the sum unchanged.
proof fn lemma_sum_sizes_update_same_size(s: Seq<CacheEntry>, i: int, e: CacheEntry)
    requires
        0 <= i < s.len(),
        e.character.spec_size() == s[i].character.spec_size(),
    ensures
        sum_sizes(s.update(i, e)) == sum_sizes(s),
    decreases s.len(),
{
    let t = s.update(i, e);
    if i == s.len() - 1 {
        assert(t.drop_last() =~= s.drop_last());
    } else {
        assert(t.drop_last() =~= s.drop_last().update(i, e));
        assert(t.last() == s.last());
        lemma_sum_sizes_update_same_size(s.drop_last(), i, e);
    }
}


// ---------------------------------------------------------------------------
// Outside collaborators: the archive decoder, the media-type sniffer and the
// randomness source.  Each is reached through one trusted item; everything
// around the calls is verified.
// ---------------------------------------------------------------------------

/// Stands for std::io::Cursor, the in-memory reader archives are opened
/// over.
#[verifier::external_type_specification]
#[verifier::external_body]
#[verifier::reject_recursive_types(T)]
pub struct ExCursor<T>(std::io::Cursor<T>);

/// Stands for zip::ZipArchive, the opened archive handle.
#[verifier::external_type_specification]
#[verifier::external_body]
#[verifier::reject_recursive_types(R)]
pub struct ExZipArchive<R>(zip::ZipArchive<R>);

/// Stands for zip::result::ZipError, the archive parser's error type.
#[verifier::external_type_specification]
#[verifier::external_body]
pub struct ExZipError(zip::result::ZipError);

/// What an opened archive holds: for each entry, its stored name and its
/// decoded bytes — `None` where the entry cannot be decoded.
pub uninterp spec fn archive_entries(z: zip::ZipArchive<std::io::Cursor<Vec<u8>>>) -> Seq<
    (Seq<char>, Option<Seq<u8>>),
>;

/// What parsing bytes as an archive yields: for each entry, its stored
/// name and its decoded bytes (`None` where decoding fails); `None` when
/// the bytes are not a readable archive.  Parsing reads nothing but the
/// bytes, so the result is a function of them alone.
pub uninterp spec fn parsed_entries(bytes: Seq<u8>) -> Option<Seq<(Seq<char>, Option<Seq<u8>>)>>;

/// Relies on zip::ZipArchive::new: parses the archive's central directory
/// from the bytes alone; empty input is not a valid archive.
#[verifier::external_body]
fn open_archive(bytes: Vec<u8>) -> (r: Result<
    zip::ZipArchive<std::io::Cursor<Vec<u8>>>,
    zip::result::ZipError,
>)
    ensures
        r is Ok <==> parsed_entries(bytes@) is Some,
        r matches Ok(z) ==> archive_entries(z) == parsed_entries(bytes@).unwrap(),
        bytes@.len() == 0 ==> r is Err,
{
    zip::ZipArchive::new(std::io::Cursor::new(bytes))
}

/// Relies on zip::ZipArchive::len: the number of entries in the archive.
#[verifier::external_body]
fn archive_len(z: &zip::ZipArchive<std::io::Cursor<Vec<u8>>>) -> (r: usize)
    ensures
        r == archive_entries(*z).len(),
{
    z.len()
}

/// Relies on zip::ZipArchive::name_for_index: the stored name of one entry
/// (present for every index below the length).
#[verifier::external_body]
fn entry_name(z: &zip::ZipArchive<std::io::Cursor<Vec<u8>>>, i: usize) -> (r: String)
    requires
        i < archive_entries(*z).len(),
    ensures
        r@ == archive_entries(*z)[i as int].0,
{
    match z.name_for_index(i) {
        Some(n) => n.to_owned(),
        None => String::new(),
    }
}

/// Relies on zip::ZipArchive::by_index and std::io::Read::read_to_end: the
/// decompressed bytes of one entry, or `None` where decoding fails.
#[verifier::external_body]
fn entry_data(z: &mut zip::ZipArchive<std::io::Cursor<Vec<u8>>>, i: usize) -> (r: Option<Vec<u8>>)
    requires
        i < archive_entries(*old(z)).len(),
    ensures
        archive_entries(*final(z)) == archive_entries(*old(z)),
        r is Some <==> archive_entries(*old(z))[i as int].1 is Some,
        r is Some ==> r.unwrap()@ == archive_entries(*old(z))[i as int].1.unwrap(),
{
    let mut file = match z.by_index(i) {
        Ok(f) => f,
        Err(_) => return None,
    };
    let mut data: Vec<u8> = Vec::new();
    match std::io::Read::read_to_end(&mut file, &mut data) {
        Ok(_) => Some(data),
        Err(_) => None,
    }
}

/// The media type guessed from an entry name's extension, as its lowercase
/// `type/subtype` text; `None` where the extension maps to no known type.
pub uninterp spec fn guessed_media_type(name: Seq<char>) -> Option<Seq<u8>>;

/// Relies on mime_guess::from_path: the guess depends on the name alone.
#[verifier::external_body]
fn media_type_for(name: &String) -> (r: Option<Vec<u8>>)
    ensures
        r is Some <==> guessed_media_type(name@) is Some,
        r is Some ==> r.unwrap()@ == guessed_media_type(name@).unwrap(),
{
    mime_guess::from_path(name.as_str()).first().map(|m| m.essence_str().as_bytes().to_vec())
}

/// Relies on rand::seq::index::sample: all indices below `n`, each exactly
/// once, in uniformly random order.
#[verifier::external_body]
fn shuffled_indices(n: usize) -> (r: Vec<usize>)
    ensures
        r@.len() == n,
        forall|i: int| 0 <= i < r@.len() ==> r@[i] < n,
        forall|i: int, j: int| 0 <= i < j < r@.len() ==> r@[i] != r@[j],
{
    rand::seq::index::sample(&mut rand::rng(), n, n).into_vec()
}

// ---------------------------------------------------------------------------
// Qualification: which archive entries count as board images.
// ---------------------------------------------------------------------------

/// The `image/` prefix of a media type, as bytes.
pub open spec fn image_prefix() -> Seq<u8> {
    seq![105u8, 109u8, 97u8, 103u8, 101u8, 47u8]
}

/// The `image/tiff` media type, which common browsers cannot render inline.
pub open spec fn tiff_type() -> Seq<u8> {
    seq![105u8, 109u8, 97u8, 103u8, 101u8, 47u8, 116u8, 105u8, 102u8, 102u8]
}

/// A media type qualifies when it is an image type other than TIFF.
pub open spec fn media_qualifies(m: Option<Seq<u8>>) -> bool {
    &&& m is Some
    &&& m.unwrap().len() >= 6
    &&& m.unwrap().subrange(0, 6) == image_prefix()
    &&& m.unwrap() != tiff_type()
}

/// An entry qualifies by its name alone: the name's guessed media type is a
/// renderable image type.
pub open spec fn name_qualifies(name: Seq<char>) -> bool {
    media_qualifies(guessed_media_type(name))
}

/// Every entry whose name qualifies can be decoded.
pub open spec fn all_qualifying_readable(entries: Seq<(Seq<char>, Option<Seq<u8>>)>) -> bool {
    forall|j: int|
        0 <= j < entries.len() && name_qualifies((#[trigger] entries[j]).0) ==> entries[j].1
            is Some
}

/// The view of an optional byte vector.
pub open spec fn opt_bytes_view(m: &Option<Vec<u8>>) -> Option<Seq<u8>> {
    match m {
        Some(t) => Some(t@),
        None => None,
    }
}

/// Decide whether a guessed media type qualifies.
fn media_ok(m: &Option<Vec<u8>>) -> (r: bool)
    ensures
        r == media_qualifies(opt_bytes_view(m)),
{
    let prefix: Vec<u8> = vec![105u8, 109u8, 97u8, 103u8, 101u8, 47u8];
    let tiff: Vec<u8> = vec![105u8, 109u8, 97u8, 103u8, 101u8, 47u8, 116u8, 105u8, 102u8, 102u8];
    proof {
        assert(prefix@ =~= image_prefix());
        assert(tiff@ =~= tiff_type());
    }
    match m {
        Some(t) => has_byte_prefix(t, &prefix) && !bytes_eq(t, &tiff),
        None => false,
    }
}

// ---------------------------------------------------------------------------
// Selection: walking the archive in a given order, collecting qualifying
// images until the board is full.
// ---------------------------------------------------------------------------

/// What walking the archive's entries in the given order selects, starting
/// at position `k` with `acc` already collected: entries whose name
/// qualifies are decoded and collected as (media type, bytes) pairs until
/// the board is full; an undecodable qualifying entry stops the walk with
/// `Corrupt`; running out of entries first means too few images.
pub open spec fn select_spec(
    entries: Seq<(Seq<char>, Option<Seq<u8>>)>,
    order: Seq<usize>,
    k: int,
    acc: Seq<(Seq<u8>, Seq<u8>)>,
) -> Result<Seq<(Seq<u8>, Seq<u8>)>, LoadError>
    decreases order.len() - k,
{
    if acc.len() >= NUM_CHARS {
        Ok(acc)
    } else if k < 0 || k >= order.len() {
        Err(LoadError::InsufficientImages)
    } else if order[k] >= entries.len() {
        Err(LoadError::Corrupt)
    } else if name_qualifies(entries[order[k] as int].0) {
        match entries[order[k] as int].1 {
            Some(d) => select_spec(
                entries,
                order,
                k + 1,
                acc.push((guessed_media_type(entries[order[k] as int].0).unwrap(), d)),
            ),
            None => Err(LoadError::Corrupt),
        }
    } else {
        select_spec(entries, order, k + 1, acc)
    }
}

/// Walk the archive in the given order and collect the board's characters:
/// one per qualifying entry, each carrying its decoded bytes and its
/// guessed media type as tag.
pub fn select_characters(
    z: &mut zip::ZipArchive<std::io::Cursor<Vec<u8>>>,
    order: &Vec<usize>,
) -> (r: Result<Vec<Character>, LoadError>)
    requires
        forall|i: int|
            0 <= i < order@.len() ==> order@[i] < archive_entries(*old(z)).len(),
    ensures
        archive_entries(*final(z)) == archive_entries(*old(z)),
        match r {
            Ok(chars) => {
                &&& select_spec(
                    archive_entries(*old(z)),
                    order@,
                    0,
                    Seq::empty(),
                ) matches Ok(sel)
                &&& chars@.len() == sel.len()
                &&& forall|t: int|
                    0 <= t < sel.len() ==> (#[trigger] chars@[t]).tag_view() == Some(sel[t].0)
                        && chars@[t].data@ == sel[t].1
            },
            Err(e) => select_spec(archive_entries(*old(z)), order@, 0, Seq::empty()) == Err::<
                Seq<(Seq<u8>, Seq<u8>)>,
                LoadError,
            >(e),
        },
{
    let ghost entries = archive_entries(*old(z));
    let mut chars: Vec<Character> = Vec::new();
    let ghost mut acc: Seq<(Seq<u8>, Seq<u8>)> = Seq::empty();
    let mut k: usize = 0;
    while k < order.len() && chars.len() < NUM_CHARS
        invariant
            forall|i: int| 0 <= i < order@.len() ==> order@[i] < entries.len(),
            entries == archive_entries(*old(z)),
            archive_entries(*z) == entries,
            k <= order@.len(),
            acc.len() == chars@.len() <= NUM_CHARS,
            forall|t: int|
                0 <= t < acc.len() ==> (#[trigger] chars@[t]).tag_view() == Some(acc[t].0)
                    && chars@[t].data@ == acc[t].1,
            select_spec(entries, order@, 0, Seq::empty()) == select_spec(
                entries,
                order@,
                k as int,
                acc,
            ),
        decreases order@.len() - k,
    {
        let idx = order[k];
        let name = entry_name(z, idx);
        let mime = media_type_for(&name);
        proof {
            assert(opt_bytes_view(&mime) == guessed_media_type(name@));
        }
        if media_ok(&mime) {
            let data = match entry_data(z, idx) {
                Some(d) => d,
                None => {
                    return Err(LoadError::Corrupt);
                },
            };
            let tag = match mime {
                Some(t) => t,
                None => {
                    proof {
                        assert(false);
                    }
                    Vec::new()
                },
            };
            let ghost pair = (tag@, data@);
            chars.push(Character { content_type: Some(tag), data });
            proof {
                acc = acc.push(pair);
            }
        }
        k = k + 1;
    }
    if chars.len() == NUM_CHARS {
        Ok(chars)
    } else {
        Err(LoadError::InsufficientImages)
    }
}


/// A successful selection fills the board exactly: starting below the bound
/// with only qualifying picks, it ends with exactly [`NUM_CHARS`] picks,
/// every one of them qualifying.
pub proof fn lemma_select_ok(
    entries: Seq<(Seq<char>, Option<Seq<u8>>)>,
    order: Seq<usize>,
    k: int,
    acc: Seq<(Seq<u8>, Seq<u8>)>,
)
    requires
        select_spec(entries, order, k, acc) is Ok,
        acc.len() <= NUM_CHARS,
        forall|t: int| 0 <= t < acc.len() ==> media_qualifies(Some((#[trigger] acc[t]).0)),
    ensures
        select_spec(entries, order, k, acc).unwrap().len() == NUM_CHARS,
        forall|t: int|
            0 <= t < NUM_CHARS ==> media_qualifies(
                Some((#[trigger] select_spec(entries, order, k, acc).unwrap()[t]).0),
            ),
    decreases order.len() - k,
{
    if acc.len() >= NUM_CHARS {
    } else if k < 0 || k >= order.len() {
    } else if order[k] >= entries.len() {
    } else if name_qualifies(entries[order[k] as int].0) {
        match entries[order[k] as int].1 {
            Some(d) => {
                let name = entries[order[k] as int].0;
                let pushed = acc.push((guessed_media_type(name).unwrap(), d));
                assert(media_qualifies(Some(guessed_media_type(name).unwrap())));
                lemma_select_ok(entries, order, k + 1, pushed);
            },
            None => {},
        }
    } else {
        lemma_select_ok(entries, order, k + 1, acc);
    }
}

/// What interning a run of characters does to the cache model, starting at
/// position `k`: each character is interned in turn; the identifiers handed
/// out, in order, form the third component.
pub open spec fn intern_all_spec(
    s: Seq<CacheEntry>,
    next: u64,
    chars: Seq<Character>,
    k: int,
) -> (Seq<CacheEntry>, u64, Seq<u64>)
    decreases chars.len() - k,
{
    if k < 0 || k >= chars.len() {
        (s, next, Seq::empty())
    } else {
        let step = intern_spec(s, next, chars[k]);
        let rest = intern_all_spec(step.0, step.1, chars, k + 1);
        (rest.0, rest.1, seq![step.2] + rest.2)
    }
}

impl CharacterCache {
    /// Turn an uploaded archive into a character set: parse it, walk its
    /// entries in uniformly random order, select and decode qualifying
    /// images until the board is full, and intern each decoded image in the
    /// cache, reusing any entry with identical content.  On any failure the
    /// cache is left exactly as it was — no partial set leaks into it.
    pub fn load(&mut self, pack: Vec<u8>) -> (r: Result<CharacterSet, LoadError>)
        requires
            old(self).wf(),
            old(self).spec_next_id() + NUM_CHARS <= u64::MAX,
        ensures
            final(self).wf(),
            r is Err ==> *final(self) == *old(self),
            pack@.len() == 0 ==> r == Err::<CharacterSet, LoadError>(LoadError::Corrupt),
            parsed_entries(pack@) is None ==> r == Err::<CharacterSet, LoadError>(
                LoadError::Corrupt,
            ),
            ({
                let parsed = parsed_entries(pack@);
                parsed is Some && all_qualifying_readable(parsed.unwrap()) ==> {
                    &&& count_qualifying(parsed.unwrap()) >= NUM_CHARS ==> r is Ok
                    &&& count_qualifying(parsed.unwrap()) < NUM_CHARS ==> r == Err::<
                        CharacterSet,
                        LoadError,
                    >(LoadError::InsufficientImages)
                }
            }),
            r matches Ok(set) ==> {
                &&& set.wf()
                &&& exists|chars: Seq<Character>|
                    {
                        &&& chars.len() == NUM_CHARS
                        &&& forall|t: int|
                            0 <= t < chars.len() ==> media_qualifies(
                                (#[trigger] chars[t]).tag_view(),
                            )
                        &&& (
                        final(self).spec_entries(),
                        final(self).spec_next_id(),
                        set.0@,
                        ) == #[trigger] intern_all_spec(
                            old(self).spec_entries(),
                            old(self).spec_next_id(),
                            chars,
                            0,
                        )
                    }
            },
    {
        let ghost pack_view = pack@;
        let mut z = match open_archive(pack) {
            Ok(z) => z,
            Err(_) => {
                return Err(LoadError::Corrupt);
            },
        };
        let n = archive_len(&z);
        let order = shuffled_indices(n);
        let mut chars = match select_characters(&mut z, &order) {
            Ok(c) => c,
            Err(e) => {
                proof {
                    let ents = parsed_entries(pack_view).unwrap();
                    if all_qualifying_readable(ents) {
                        lemma_select_success_iff(ents, order@);
                        lemma_select_no_corrupt(ents, order@, 0, Seq::empty());
                    }
                }
                return Err(e);
            },
        };
        proof {
            let ents = parsed_entries(pack_view).unwrap();
            if all_qualifying_readable(ents) {
                lemma_select_success_iff(ents, order@);
            }
        }
        let ghost all = chars@;
        let ghost orig_s = self.spec_entries();
        let ghost orig_n = self.spec_next_id();
        proof {
            lemma_select_ok(archive_entries(z), order@, 0, Seq::empty());
            assert(forall|t: int|
                0 <= t < all.len() ==> media_qualifies((#[trigger] all[t]).tag_view()));
        }
        let mut ids: Vec<u64> = Vec::new();
        let ghost mut j: int = 0;
        while chars.len() > 0
            invariant
                self.wf(),
                all.len() == NUM_CHARS,
                orig_n + NUM_CHARS <= u64::MAX,
                0 <= j <= all.len(),
                chars@ == all.subrange(j, all.len() as int),
                ids@.len() == j,
                self.spec_next_id() <= orig_n + j,
                intern_all_spec(orig_s, orig_n, all, 0) == {
                    let rest = intern_all_spec(self.spec_entries(), self.spec_next_id(), all, j);
                    (rest.0, rest.1, ids@ + rest.2)
                },
            decreases chars@.len(),
        {
            let c = chars.remove(0);
            proof {
                assert(c == all[j]);
                assert(chars@ =~= all.subrange(j + 1, all.len() as int));
            }
            let ghost pre_s = self.spec_entries();
            let ghost pre_n = self.spec_next_id();
            let id = self.intern(c);
            proof {
                let step = intern_spec(pre_s, pre_n, all[j]);
                let rest = intern_all_spec(self.spec_entries(), self.spec_next_id(), all, j + 1);
                assert(intern_all_spec(pre_s, pre_n, all, j) == (rest.0, rest.1, seq![id] + rest.2));
                assert(ids@.push(id) + rest.2 =~= ids@ + (seq![id] + rest.2));
            }
            ids.push(id);
            proof {
                j = j + 1;
            }
        }
        proof {
            assert(intern_all_spec(self.spec_entries(), self.spec_next_id(), all, j) == (
                self.spec_entries(),
                self.spec_next_id(),
                Seq::<u64>::empty(),
            ));
            assert(ids@ + Seq::<u64>::empty() =~= ids@);
        }
        let set = CharacterSet(ids);
        proof {
            assert((self.spec_entries(), self.spec_next_id(), set.0@) == intern_all_spec(
                orig_s,
                orig_n,
                all,
                0,
            ));
        }
        Ok(set)
    }
}


impl CharacterCache {
    /// The character stored under an identifier, if that entry is alive.
    pub fn get_character(&self, id: u64) -> (r: Option<&Character>)
        ensures
            match find_id(self.spec_entries(), id) {
                Some(i) => r matches Some(c) && *c == self.spec_entries()[i].character,
                None => r is None,
            },
    {
        let ghost orig = self.entries@;
        let mut i: usize = 0;
        while i < self.entries.len()
            invariant
                orig == self.spec_entries(),
                self.entries@ == orig,
                i <= orig.len(),
                forall|j: int| 0 <= j < i ==> orig[j].id != id,
            decreases orig.len() - i,
        {
            if self.entries[i].id == id {
                proof {
                    lemma_find_id_at(orig, id, i as int);
                }
                return Some(&self.entries[i].character);
            }
            i = i + 1;
        }
        proof {
            lemma_find_id_none(orig, id, orig.len() as int);
        }
        None
    }

    /// Whether the cache can still hand out identifiers for a full board:
    /// callers check this before `load`.
    pub fn can_allocate(&self) -> (r: bool)
        ensures
            r == (self.spec_next_id() + NUM_CHARS <= u64::MAX),
    {
        self.next_id <= u64::MAX - (NUM_CHARS as u64)
    }
}

/// Releasing one identifier list after another is releasing their
/// concatenation.
pub proof fn lemma_release_all_concat(s: Seq<CacheEntry>, a: Seq<u64>, b: Seq<u64>)
    ensures
        release_all_spec(release_all_spec(s, a, 0), b, 0) == release_all_spec(s, a + b, 0),
    decreases a.len(),
{
    if a.len() == 0 {
        assert(a + b =~= b);
        assert(release_all_spec(s, a, 0) == s);
    } else {
        let s1 = release_spec(s, a[0]);
        assert((a + b)[0] == a[0]);
        lemma_release_all_from(s1, a, 1);
        assert(a.subrange(1, a.len() as int) =~= a.drop_first());
        lemma_release_all_shift(s1, a, b);
        lemma_release_all_concat(s1, a.drop_first(), b);
    }
}

/// Helper: `release_all_spec` from position 1 equals releasing the tail
/// from position 0.
proof fn lemma_release_all_shift(s: Seq<CacheEntry>, a: Seq<u64>, b: Seq<u64>)
    requires
        a.len() >= 1,
    ensures
        release_all_spec(s, a + b, 1) == release_all_spec(s, a.drop_first() + b, 0),
    decreases a.len() + b.len(),
{
    lemma_release_all_from(s, a + b, 1);
    lemma_release_all_from(s, a.drop_first() + b, 0);
    assert((a + b).subrange(1, (a + b).len() as int) =~= a.drop_first() + b);
    assert((a.drop_first() + b).subrange(0, (a.drop_first() + b).len() as int) =~= a.drop_first()
        + b);
}

/// `release_all_spec` from position `k` only sees the suffix.
proof fn lemma_release_all_from(s: Seq<CacheEntry>, ids: Seq<u64>, k: int)
    requires
        0 <= k <= ids.len(),
    ensures
        release_all_spec(s, ids, k) == release_all_spec(
            s,
            ids.subrange(k, ids.len() as int),
            0,
        ),
    decreases ids.len() - k,
{
    if k < ids.len() {
        let tail = ids.subrange(k, ids.len() as int);
        assert(tail[0] == ids[k]);
        lemma_release_all_from(release_spec(s, ids[k]), ids, k + 1);
        lemma_release_all_from(release_spec(s, tail[0]), tail, 1);
        assert(ids.subrange(k + 1, ids.len() as int) =~= tail.subrange(1, tail.len() as int));
    }
}


/// Number of archive entries whose name qualifies.
pub open spec fn count_qualifying(entries: Seq<(Seq<char>, Option<Seq<u8>>)>) -> int
    decreases entries.len(),
{
    if entries.len() == 0 {
        0
    } else {
        count_qualifying(entries.drop_last()) + if name_qualifies(entries.last().0) {
            1int
        } else {
            0int
        }
    }
}

/// Number of qualifying entries the walk will still pass from position `k`
/// of the order on.
pub open spec fn remaining_qualifying(
    entries: Seq<(Seq<char>, Option<Seq<u8>>)>,
    order: Seq<usize>,
    k: int,
) -> int
    decreases order.len() - k,
{
    if k < 0 || k >= order.len() {
        0
    } else {
        (if order[k] < entries.len() && name_qualifies(entries[order[k] as int].0) {
            1int
        } else {
            0int
        }) + remaining_qualifying(entries, order, k + 1)
    }
}

proof fn lemma_rq_nonneg(entries: Seq<(Seq<char>, Option<Seq<u8>>)>, order: Seq<usize>, k: int)
    ensures
        remaining_qualifying(entries, order, k) >= 0,
    decreases order.len() - k,
{
    if 0 <= k < order.len() {
        lemma_rq_nonneg(entries, order, k + 1);
    }
}

/// The walk's outcome, position by position: it succeeds exactly when what
/// is already collected plus what it will still pass fills the board —
/// provided every qualifying entry can be decoded.
pub proof fn lemma_select_walk(
    entries: Seq<(Seq<char>, Option<Seq<u8>>)>,
    order: Seq<usize>,
    k: int,
    acc: Seq<(Seq<u8>, Seq<u8>)>,
)
    requires
        0 <= k <= order.len(),
        acc.len() <= NUM_CHARS,
        forall|i: int| 0 <= i < order.len() ==> order[i] < entries.len(),
        all_qualifying_readable(entries),
    ensures
        select_spec(entries, order, k, acc) is Ok <==> acc.len() + remaining_qualifying(
            entries,
            order,
            k,
        ) >= NUM_CHARS,
    decreases order.len() - k,
{
    lemma_rq_nonneg(entries, order, k);
    if acc.len() >= NUM_CHARS {
    } else if k >= order.len() {
    } else {
        let idx = order[k] as int;
        assert(name_qualifies(entries[idx].0) ==> entries[idx].1 is Some);
        if name_qualifies(entries[idx].0) {
            let pushed = acc.push((guessed_media_type(entries[idx].0).unwrap(), entries[idx].1.unwrap()));
            lemma_select_walk(entries, order, k + 1, pushed);
        } else {
            lemma_select_walk(entries, order, k + 1, acc);
        }
    }
}

/// With a valid order and every qualifying entry decodable, the walk never
/// fails with `Corrupt`: the only failure left is running out of images.
pub proof fn lemma_select_no_corrupt(
    entries: Seq<(Seq<char>, Option<Seq<u8>>)>,
    order: Seq<usize>,
    k: int,
    acc: Seq<(Seq<u8>, Seq<u8>)>,
)
    requires
        0 <= k <= order.len(),
        forall|i: int| 0 <= i < order.len() ==> order[i] < entries.len(),
        all_qualifying_readable(entries),
    ensures
        select_spec(entries, order, k, acc) != Err::<Seq<(Seq<u8>, Seq<u8>)>, LoadError>(
            LoadError::Corrupt,
        ),
    decreases order.len() - k,
{
    if acc.len() >= NUM_CHARS {
    } else if k >= order.len() {
    } else {
        let idx = order[k] as int;
        assert(name_qualifies(entries[idx].0) ==> entries[idx].1 is Some);
        if name_qualifies(entries[idx].0) {
            let pushed = acc.push(
                (guessed_media_type(entries[idx].0).unwrap(), entries[idx].1.unwrap()),
            );
            lemma_select_no_corrupt(entries, order, k + 1, pushed);
        } else {
            lemma_select_no_corrupt(entries, order, k + 1, acc);
        }
    }
}

proof fn lemma_rq_from(entries: Seq<(Seq<char>, Option<Seq<u8>>)>, ids: Seq<usize>, k: int)
    requires
        0 <= k <= ids.len(),
    ensures
        remaining_qualifying(entries, ids, k) == remaining_qualifying(
            entries,
            ids.subrange(k, ids.len() as int),
            0,
        ),
    decreases ids.len() - k,
{
    if k < ids.len() {
        let tail = ids.subrange(k, ids.len() as int);
        assert(tail[0] == ids[k]);
        lemma_rq_from(entries, ids, k + 1);
        assert(ids.subrange(k + 1, ids.len() as int) =~= tail.subrange(1, tail.len() as int));
        lemma_rq_from(entries, tail, 1);
    }
}

proof fn lemma_rq_concat(entries: Seq<(Seq<char>, Option<Seq<u8>>)>, a: Seq<usize>, b: Seq<usize>)
    ensures
        remaining_qualifying(entries, a + b, 0) == remaining_qualifying(entries, a, 0)
            + remaining_qualifying(entries, b, 0),
    decreases a.len(),
{
    if a.len() == 0 {
        assert(a + b =~= b);
    } else {
        assert((a + b)[0] == a[0]);
        lemma_rq_from(entries, a + b, 1);
        assert((a + b).subrange(1, (a + b).len() as int) =~= a.drop_first() + b);
        lemma_rq_from(entries, a, 1);
        assert(a.subrange(1, a.len() as int) =~= a.drop_first());
        lemma_rq_concat(entries, a.drop_first(), b);
    }
}

proof fn lemma_rq_entries_prefix(
    entries: Seq<(Seq<char>, Option<Seq<u8>>)>,
    order: Seq<usize>,
    m: int,
    k: int,
)
    requires
        0 <= m <= entries.len(),
        0 <= k <= order.len(),
        forall|i: int| 0 <= i < order.len() ==> order[i] < m,
    ensures
        remaining_qualifying(entries, order, k) == remaining_qualifying(
            entries.subrange(0, m),
            order,
            k,
        ),
    decreases order.len() - k,
{
    if k < order.len() {
        assert(entries.subrange(0, m)[order[k] as int] == entries[order[k] as int]);
        lemma_rq_entries_prefix(entries, order, m, k + 1);
    }
}

proof fn lemma_distinct_full_range(order: Seq<usize>, n: int, v: int)
    requires
        order.len() == n,
        forall|i: int| 0 <= i < n ==> order[i] < n,
        forall|i: int, j: int| 0 <= i < j < n ==> order[i] != order[j],
        0 <= v < n,
    ensures
        exists|i: int| 0 <= i < n && order[i] == v,
{
    broadcast use vstd::set::group_set_axioms;

    let ints = order.map_values(|x: usize| x as int);
    assert(forall|i: int| 0 <= i < n ==> ints[i] == order[i] as int);
    assert(ints.no_duplicates());
    ints.unique_seq_to_set();
    vstd::set_lib::lemma_int_range(0, n);
    let range = vstd::set_lib::set_int_range(0, n);
    assert(ints.to_set().subset_of(range)) by {
        assert forall|x: int| ints.to_set().contains(x) implies range.contains(x) by {
            let i = choose|i: int| 0 <= i < ints.len() && ints[i] == x;
            assert(0 <= (order[i] as int) < n);
        }
    }
    if !ints.to_set().contains(v) {
        ints.to_set().lemma_subset_not_in_lt(range, v);
        assert(false);
    }
    let i = choose|i: int| 0 <= i < ints.len() && ints[i] == v;
    assert(order[i] == v);
}

/// Walking all entries in any order that visits each exactly once passes
/// exactly the archive's qualifying entries.
pub proof fn lemma_order_counts_entries(
    entries: Seq<(Seq<char>, Option<Seq<u8>>)>,
    order: Seq<usize>,
)
    requires
        order.len() == entries.len(),
        forall|i: int| 0 <= i < order.len() ==> order[i] < entries.len(),
        forall|i: int, j: int| 0 <= i < j < order.len() ==> order[i] != order[j],
    ensures
        remaining_qualifying(entries, order, 0) == count_qualifying(entries),
    decreases entries.len(),
{
    let n = order.len() as int;
    if n > 0 {
        lemma_distinct_full_range(order, n, n - 1);
        let t0 = choose|i: int| 0 <= i < n && order[i] == n - 1;
        let a = order.subrange(0, t0);
        let mid = seq![order[t0]];
        let c = order.subrange(t0 + 1, n);
        assert(order =~= (a + mid) + c);
        lemma_rq_concat(entries, a + mid, c);
        lemma_rq_concat(entries, a, mid);
        assert(remaining_qualifying(entries, mid, 0) == (if name_qualifies(entries[n - 1].0) {
            1int
        } else {
            0
        })) by {
            assert(mid[0] == order[t0]);
            assert(remaining_qualifying(entries, mid, 1) == 0);
        }
        // Every other position holds an index below n - 1.
        assert(forall|i: int| 0 <= i < a.len() ==> a[i] < n - 1) by {
            assert(forall|i: int| 0 <= i < t0 ==> order[i] != order[t0] && order[i] < n);
        }
        assert(forall|i: int| 0 <= i < c.len() ==> c[i] < n - 1) by {
            assert(forall|i: int| t0 < i < n ==> order[t0] != order[i] && order[i] < n);
        }
        let rest = entries.subrange(0, n - 1);
        lemma_rq_entries_prefix(entries, a, n - 1, 0);
        lemma_rq_entries_prefix(entries, c, n - 1, 0);
        let order2 = a + c;
        lemma_rq_concat(rest, a, c);
        assert(forall|i: int, j: int| 0 <= i < j < order2.len() ==> order2[i] != order2[j]) by {
            assert(forall|i: int| 0 <= i < a.len() ==> order2[i] == order[i]);
            assert(forall|i: int|
                a.len() <= i < order2.len() ==> order2[i] == order[i + 1]);
        }
        lemma_order_counts_entries(rest, order2);
        assert(entries.drop_last() =~= rest);
    }
}

/// Success law for loading: with an order that visits every entry exactly
/// once and an archive whose qualifying entries can all be decoded, the
/// selection succeeds exactly when the archive holds at least [`NUM_CHARS`]
/// qualifying images.
pub proof fn lemma_select_success_iff(
    entries: Seq<(Seq<char>, Option<Seq<u8>>)>,
    order: Seq<usize>,
)
    requires
        order.len() == entries.len(),
        forall|i: int| 0 <= i < order.len() ==> order[i] < entries.len(),
        forall|i: int, j: int| 0 <= i < j < order.len() ==> order[i] != order[j],
        all_qualifying_readable(entries),
    ensures
        select_spec(entries, order, 0, Seq::empty()) is Ok <==> count_qualifying(entries)
            >= NUM_CHARS,
{
    lemma_select_walk(entries, order, 0, Seq::empty());
    lemma_order_counts_entries(entries, order);
}


/// How many times an identifier occurs in a list, from position `k` on.
pub open spec fn count_ids(ids: Seq<u64>, k: int, aid: u64) -> int
    decreases ids.len() - k,
{
    if k < 0 || k >= ids.len() {
        0
    } else {
        (if ids[k] == aid {
            1int
        } else {
            0int
        }) + count_ids(ids, k + 1, aid)
    }
}

/// One entry's owner references for an identifier.
pub open spec fn owner_contrib(e: CacheEntry, aid: u64) -> int {
    if e.id == aid {
        e.owners as int
    } else {
        0
    }
}

/// The owner references the cache holds for an identifier, summed over its
/// entries (with distinct identifiers, the one entry's count).
pub open spec fn owners_of(s: Seq<CacheEntry>, aid: u64) -> int
    decreases s.len(),
{
    if s.len() == 0 {
        0
    } else {
        owners_of(s.drop_last(), aid) + owner_contrib(s.last(), aid)
    }
}

proof fn lemma_owners_update(s: Seq<CacheEntry>, i: int, e: CacheEntry, aid: u64)
    requires
        0 <= i < s.len(),
    ensures
        owners_of(s.update(i, e), aid) == owners_of(s, aid) - owner_contrib(s[i], aid)
            + owner_contrib(e, aid),
    decreases s.len(),
{
    let t = s.update(i, e);
    if i == s.len() - 1 {
        assert(t.drop_last() =~= s.drop_last());
    } else {
        assert(t.drop_last() =~= s.drop_last().update(i, e));
        assert(t.last() == s.last());
        lemma_owners_update(s.drop_last(), i, e, aid);
    }
}

proof fn lemma_owners_remove(s: Seq<CacheEntry>, i: int, aid: u64)
    requires
        0 <= i < s.len(),
    ensures
        owners_of(s.remove(i), aid) == owners_of(s, aid) - owner_contrib(s[i], aid),
    decreases s.len(),
{
    let t = s.remove(i);
    if i == s.len() - 1 {
        assert(t =~= s.drop_last());
    } else {
        assert(t.drop_last() =~= s.drop_last().remove(i));
        assert(t.last() == s.last());
        lemma_owners_remove(s.drop_last(), i, aid);
    }
}

proof fn lemma_owners_push(s: Seq<CacheEntry>, e: CacheEntry, aid: u64)
    ensures
        owners_of(s.push(e), aid) == owners_of(s, aid) + owner_contrib(e, aid),
{
    assert(s.push(e).drop_last() =~= s);
    assert(s.push(e).last() == e);
}

proof fn lemma_find_id_in_range(s: Seq<CacheEntry>, id: u64)
    requires
        find_id(s, id) is Some,
    ensures
        0 <= find_id(s, id).unwrap() < s.len(),
        s[find_id(s, id).unwrap()].id == id,
    decreases s.len(),
{
    if s.len() > 0 && s[0].id != id {
        lemma_find_id_in_range(s.drop_first(), id);
        assert(s.drop_first()[find_id(s.drop_first(), id).unwrap()] == s[find_id(
            s.drop_first(),
            id,
        ).unwrap() + 1]);
    }
}

proof fn lemma_find_id_none_conv(s: Seq<CacheEntry>, aid: u64, j: int)
    requires
        find_id(s, aid) is None,
        0 <= j < s.len(),
    ensures
        s[j].id != aid,
    decreases j,
{
    if j > 0 {
        lemma_find_id_none_conv(s.drop_first(), aid, j - 1);
        assert(s.drop_first()[j - 1] == s[j]);
    }
}

/// An identifier absent from the cache has no owner references.
pub proof fn lemma_absent_no_owners(s: Seq<CacheEntry>, aid: u64)
    requires
        find_id(s, aid) is None,
    ensures
        owners_of(s, aid) == 0,
    decreases s.len(),
{
    if s.len() > 0 {
        lemma_find_id_none_conv(s, aid, s.len() - 1);
        assert(find_id(s.drop_last(), aid) is None) by {
            if find_id(s.drop_last(), aid) is Some {
                lemma_find_id_in_range(s.drop_last(), aid);
                let i = find_id(s.drop_last(), aid).unwrap();
                lemma_find_id_none_conv(s, aid, i);
            }
        }
        lemma_absent_no_owners(s.drop_last(), aid);
    }
}

/// Releasing one identifier takes at most one owner reference from it and
/// leaves every other identifier's references untouched.
pub proof fn lemma_release_owners(s: Seq<CacheEntry>, id: u64, aid: u64)
    ensures
        owners_of(release_spec(s, id), aid) >= owners_of(s, aid) - (if id == aid {
            1int
        } else {
            0int
        }),
        id != aid ==> owners_of(release_spec(s, id), aid) == owners_of(s, aid),
{
    match find_id(s, id) {
        Some(i) => {
            lemma_find_id_in_range(s, id);
            if s[i].owners > 1 {
                lemma_owners_update(
                    s,
                    i,
                    CacheEntry {
                        id: s[i].id,
                        owners: (s[i].owners - 1) as u64,
                        character: s[i].character,
                    },
                    aid,
                );
            } else {
                lemma_owners_remove(s, i, aid);
            }
        },
        None => {},
    }
}

/// Releasing a list of identifiers takes at most one owner reference per
/// occurrence.
pub proof fn lemma_release_all_owners(s: Seq<CacheEntry>, ids: Seq<u64>, k: int, aid: u64)
    requires
        0 <= k <= ids.len(),
    ensures
        owners_of(release_all_spec(s, ids, k), aid) >= owners_of(s, aid) - count_ids(ids, k, aid),
    decreases ids.len() - k,
{
    if k < ids.len() {
        lemma_release_owners(s, ids[k], aid);
        lemma_release_all_owners(release_spec(s, ids[k]), ids, k + 1, aid);
    }
}

pub proof fn lemma_count_ids_from(ids: Seq<u64>, k: int, aid: u64)
    requires
        0 <= k <= ids.len(),
    ensures
        count_ids(ids, k, aid) == count_ids(ids.subrange(k, ids.len() as int), 0, aid),
    decreases ids.len() - k,
{
    if k < ids.len() {
        let tail = ids.subrange(k, ids.len() as int);
        assert(tail[0] == ids[k]);
        lemma_count_ids_from(ids, k + 1, aid);
        assert(ids.subrange(k + 1, ids.len() as int) =~= tail.subrange(1, tail.len() as int));
        lemma_count_ids_from(tail, 1, aid);
    }
}

/// Counting from position one is counting the tail.
pub proof fn lemma_count_ids_shift(ids: Seq<u64>, aid: u64)
    requires
        ids.len() >= 1,
    ensures
        count_ids(ids, 1, aid) == count_ids(ids.drop_first(), 0, aid),
{
    lemma_count_ids_from(ids, 1, aid);
    assert(ids.subrange(1, ids.len() as int) =~= ids.drop_first());
}

/// Counting a concatenation counts both parts.
pub proof fn lemma_count_ids_concat(a: Seq<u64>, b: Seq<u64>, aid: u64)
    ensures
        count_ids(a + b, 0, aid) == count_ids(a, 0, aid) + count_ids(b, 0, aid),
    decreases a.len(),
{
    if a.len() == 0 {
        assert(a + b =~= b);
    } else {
        assert((a + b)[0] == a[0]);
        lemma_count_ids_shift(a + b, aid);
        assert((a + b).drop_first() =~= a.drop_first() + b);
        lemma_count_ids_shift(a, aid);
        lemma_count_ids_concat(a.drop_first(), b, aid);
    }
}

/// Interning one character adds exactly one owner reference, on the
/// identifier it hands out.
pub proof fn lemma_intern_owners(s: Seq<CacheEntry>, next: u64, c: Character, aid: u64)
    ensures
        owners_of(intern_spec(s, next, c).0, aid) == owners_of(s, aid) + (if intern_spec(
            s,
            next,
            c,
        ).2 == aid {
            1int
        } else {
            0int
        }),
{
    match find_match(s, c) {
        Some(i) => {
            lemma_find_match_in_range(s, c);
            lemma_owners_update(s, i, bump_owner(s[i]), aid);
        },
        None => {
            lemma_owners_push(s, CacheEntry { id: next, owners: 1, character: c }, aid);
        },
    }
}

/// Interning a run of characters adds exactly one owner reference per
/// identifier handed out.
pub proof fn lemma_intern_all_owners(
    s: Seq<CacheEntry>,
    next: u64,
    chars: Seq<Character>,
    k: int,
    aid: u64,
)
    requires
        0 <= k <= chars.len(),
    ensures
        owners_of(intern_all_spec(s, next, chars, k).0, aid) == owners_of(s, aid) + count_ids(
            intern_all_spec(s, next, chars, k).2,
            0,
            aid,
        ),
    decreases chars.len() - k,
{
    if k < chars.len() {
        let step = intern_spec(s, next, chars[k]);
        lemma_intern_owners(s, next, chars[k], aid);
        lemma_intern_all_owners(step.0, step.1, chars, k + 1, aid);
        let rest = intern_all_spec(step.0, step.1, chars, k + 1);
        let ids = seq![step.2] + rest.2;
        assert(ids[0] == step.2);
        lemma_count_ids_from(ids, 1, aid);
        assert(ids.subrange(1, ids.len() as int) =~= rest.2);
    }
}

} // verus!
