//! The store that both readers share: what a query resolves to in a file,
//! with and without the cache, and the scan for keys with a prefix.

use crate::cache::{
    cache_contains, cache_entries, cache_get, cache_len, cache_limit, cache_new, cache_put,
    distinct_queries, inserted, lemma_inserted, lemma_position_of, lemma_touched, position_of,
    touched, Cached, PayloadCache,
};
use crate::error::MdictError;
use crate::header::{header_parsed, read_header, DictionaryHeader, HeaderView};
use crate::index::{
    index_parsed, read_block_infos, records_chained, BlockIndex, IndexView, KeyBlockView,
};
use crate::keys::{
    entry_views, find_entry, first_match, holding_key_block, index_is_ordered, key_block_decoded,
    keys_ordered, lemma_first_match, read_key_block_entries, select_key_block, KeyEntryView,
};
use crate::records::{read_record, record_read};
use crate::text::{
    fold_form, has_prefix, key_form, lemma_lex_total, lex_le, lex_lt, lex_order, normalize, texts,
    KeyOrder,
};
use vstd::prelude::*;
use vstd::slice::slice_to_vec;

verus! {

/// The number of entries that a reader's cache holds at most.
pub const CACHE_CAPACITY: usize = 100;

/// What a file's header and indexes amount to.
pub struct ArchiveView {
    pub header: HeaderView,
    pub index: IndexView,
}

/// The header and the indexes of a file. A file whose key index is
/// encrypted cannot be opened.
pub open spec fn archive_parsed(file: Seq<u8>) -> Result<ArchiveView, MdictError> {
    match header_parsed(file) {
        Err(e) => Err(e),
        Ok(header) => if header.encryption.key_index {
            Err(MdictError::UnsupportedEncryption)
        } else {
            match index_parsed(file, header) {
                Err(e) => Err(e),
                Ok(index) => Ok(ArchiveView { header, index }),
            }
        },
    }
}

/// The length of a record that begins at `address` where the next begins
/// at `next`: the distance between them, or nothing where the next does
/// not lie beyond it.
pub open spec fn record_len(address: u64, next: u64) -> u64 {
    if next > address {
        (next - address) as u64
    } else {
        0
    }
}

/// The address at which the first entry of the key blocks from `from` on
/// points, or the end of all records where no entry follows.
pub open spec fn next_address(file: Seq<u8>, archive: ArchiveView, from: int) -> Result<
    u64,
    MdictError,
>
    decreases archive.index.key_blocks.len() - from,
{
    if from < 0 || from >= archive.index.key_blocks.len() {
        Ok(archive.index.total_size)
    } else {
        match key_block_decoded(file, archive.index.key_blocks[from], archive.header) {
            Err(e) => Err(e),
            Ok(entries) => if entries.len() > 0 {
                Ok(entries[0].offset)
            } else {
                next_address(file, archive, from + 1)
            },
        }
    }
}

/// Where a key's record lies.
pub struct Located {
    /// The key as the file spells it.
    pub key: Seq<char>,
    /// The address of the record among the decoded bytes of all record blocks.
    pub address: u64,
    /// The length of the record.
    pub length: u64,
}

/// What the search for a normalized query in one key block gives: the
/// first entry of the block with that form, its record's address, and the
/// record's length, which reaches up to the address of the entry that
/// follows in the file, or to the end of all records. A block that the
/// index does not have holds nothing.
pub open spec fn searched(file: Seq<u8>, archive: ArchiveView, block: int, target: Seq<u8>)
    -> Result<Option<Located>, MdictError> {
    if block < 0 || block >= archive.index.key_blocks.len() {
        Ok(None)
    } else {
        searched_in(file, archive, block, target)
    }
}

/// What the search for a normalized query in a key block of the index gives.
pub open spec fn searched_in(file: Seq<u8>, archive: ArchiveView, block: int, target: Seq<u8>)
    -> Result<Option<Located>, MdictError> {
    match key_block_decoded(file, archive.index.key_blocks[block], archive.header) {
        Err(e) => Err(e),
        Ok(entries) => match first_match(
            entries,
            target,
            archive.header.strip_key,
            archive.header.key_case_sensitive,
            0,
        ) {
            None => Ok(None),
            Some(i) => if i + 1 < entries.len() {
                Ok(
                    Some(
                        Located {
                            key: entries[i].key,
                            address: entries[i].offset,
                            length: record_len(entries[i].offset, entries[i + 1].offset),
                        },
                    ),
                )
            } else {
                match next_address(file, archive, block + 1) {
                    Err(e) => Err(e),
                    Ok(next) => Ok(
                        Some(
                            Located {
                                key: entries[i].key,
                                address: entries[i].offset,
                                length: record_len(entries[i].offset, next),
                            },
                        ),
                    ),
                }
            },
        },
    }
}

/// Where the record of a normalized query lies: nowhere where no key
/// block's range holds the query or the block does not hold it; else the
/// search in the first block whose range holds it tells.
pub open spec fn key_located(file: Seq<u8>, archive: ArchiveView, query: Seq<u8>) -> Result<
    Option<Located>,
    MdictError,
> {
    match holding_key_block(
        archive.index.key_blocks,
        query,
        archive.header.strip_key,
        archive.header.key_case_sensitive,
        0,
    ) {
        None => Ok(None),
        Some(block) => searched(file, archive, block, query),
    }
}

/// What a key and its record amount to: the key as the file spells it, and
/// the record's bytes.
pub type Found = (Seq<char>, Seq<u8>);

/// What a normalized query resolves to in a file: nothing where the file
/// holds no key for it; else the key and its record. Records that are
/// encrypted cannot be read.
pub open spec fn found(file: Seq<u8>, archive: ArchiveView, query: Seq<u8>) -> Result<
    Option<Found>,
    MdictError,
> {
    match key_located(file, archive, query) {
        Err(e) => Err(e),
        Ok(None) => Ok(None),
        Ok(Some(located)) => if archive.header.encryption.record {
            Err(MdictError::UnsupportedEncryption)
        } else {
            match record_read(
                file,
                archive.index.record_blocks,
                located.address,
                located.length,
            ) {
                Err(e) => Err(e),
                Ok(payload) => Ok(Some((located.key, payload))),
            }
        },
    }
}

/// What a normalized query resolves to in the bytes of a file.
pub open spec fn found_in(file: Seq<u8>, query: Seq<u8>) -> Result<Option<Found>, MdictError> {
    match archive_parsed(file) {
        Err(e) => Err(e),
        Ok(archive) => found(file, archive, query),
    }
}

/// Whether a block's range of keys may hold a key that begins with a
/// prefix: its last key does not come before the prefix, and its first key
/// comes before the prefix followed by the byte 0xFF.
pub open spec fn may_hold_prefix(info: KeyBlockView, prefix: Seq<u8>, case_sensitive: bool) -> bool {
    lex_le(prefix, fold_form(info.last_key, case_sensitive)) && lex_lt(
        fold_form(info.first_key, case_sensitive),
        prefix.push(0xff),
    )
}

/// The keys among the first `count` entries whose folded form begins with
/// a prefix, in the order of the entries.
pub open spec fn matching_keys(
    entries: Seq<KeyEntryView>,
    prefix: Seq<u8>,
    case_sensitive: bool,
    count: int,
) -> Seq<Seq<char>>
    decreases count,
{
    if count <= 0 {
        Seq::empty()
    } else {
        let before = matching_keys(entries, prefix, case_sensitive, count - 1);
        if prefix.is_prefix_of(fold_form(entries[count - 1].key, case_sensitive)) {
            before.push(entries[count - 1].key)
        } else {
            before
        }
    }
}

/// The first `cap` of a sequence of keys.
pub open spec fn capped(keys: Seq<Seq<char>>, cap: nat) -> Seq<Seq<char>> {
    if keys.len() > cap {
        keys.take(cap as int)
    } else {
        keys
    }
}

/// The keys that a scan of the first `blocks` key blocks gives for a
/// folded prefix, no more than `cap` of them. A block is decoded where its
/// range may hold the prefix and the cap is not reached. A block that
/// cannot be decoded gives no keys, but where the file ends before the
/// block the scan fails.
pub open spec fn prefix_scan(
    file: Seq<u8>,
    archive: ArchiveView,
    prefix: Seq<u8>,
    cap: nat,
    blocks: int,
) -> Result<Seq<Seq<char>>, MdictError>
    decreases blocks,
{
    if blocks <= 0 {
        Ok(Seq::empty())
    } else {
        match prefix_scan(file, archive, prefix, cap, blocks - 1) {
            Err(e) => Err(e),
            Ok(keys) => if keys.len() >= cap || !may_hold_prefix(
                archive.index.key_blocks[blocks - 1],
                prefix,
                archive.header.key_case_sensitive,
            ) {
                Ok(keys)
            } else {
                match key_block_decoded(
                    file,
                    archive.index.key_blocks[blocks - 1],
                    archive.header,
                ) {
                    Err(MdictError::Io) => Err(MdictError::Io),
                    Err(_) => Ok(keys),
                    Ok(entries) => Ok(
                        capped(
                            keys + matching_keys(
                                entries,
                                prefix,
                                archive.header.key_case_sensitive,
                                entries.len() as int,
                            ),
                            cap,
                        ),
                    ),
                }
            },
        }
    }
}

/// The keys that a file holds for a folded prefix, no more than `cap`.
pub open spec fn prefix_found(file: Seq<u8>, prefix: Seq<u8>, cap: nat) -> Result<
    Seq<Seq<char>>,
    MdictError,
> {
    match archive_parsed(file) {
        Err(e) => Err(e),
        Ok(archive) => prefix_scan(
            file,
            archive,
            prefix,
            cap,
            archive.index.key_blocks.len() as int,
        ),
    }
}

/// What a cache holds after an answer was used: an answer that the cache
/// held moved to the front; a new one was put in at the front, and from a
/// full cache the least recently used answer left.
pub open spec fn used(cached: Seq<Cached>, entry: Cached) -> Seq<Cached> {
    match position_of(cached, entry.0, 0) {
        Some(i) => touched(cached, i),
        None => inserted(cached, CACHE_CAPACITY as nat, entry),
    }
}

/// Whether a cache entry holds what its query resolves to in the file.
pub open spec fn entry_holds(file: Seq<u8>, archive: ArchiveView, entry: Cached) -> bool {
    found(file, archive, entry.0) == Ok::<Option<Found>, MdictError>(Some(entry.1))
}

/// The store that both readers share: the bytes of a file, its header, its
/// two indexes, and a cache of what queries resolved to.
pub struct BlockStore {
    file: Vec<u8>,
    header: DictionaryHeader,
    index: BlockIndex,
    /// Whether the ranges of the key index were found in order.
    ordered: bool,
    cache: PayloadCache,
}

impl BlockStore {
    /// The bytes of the file.
    pub closed spec fn file(&self) -> Seq<u8> {
        self.file@
    }

    /// The header and the indexes that the store holds.
    pub closed spec fn archive(&self) -> ArchiveView {
        ArchiveView { header: self.header@, index: self.index@ }
    }

    /// What the cache holds, the most recently used entry first.
    pub closed spec fn cached(&self) -> Seq<Cached> {
        cache_entries(self.cache)
    }

    /// Whether the store is what opening its file gives: header and indexes
    /// are those of the file, the cache holds at most `CACHE_CAPACITY`
    /// entries, no two of them for one query, and each of them is what its
    /// query resolves to.
    pub closed spec fn wf(&self) -> bool {
        &&& archive_parsed(self.file@) == Ok::<ArchiveView, MdictError>(self.archive())
        &&& self.ordered ==> keys_ordered(
            self.archive().index.key_blocks,
            self.header.strip_key,
            self.header.key_case_sensitive,
        )
        &&& records_chained(self.index.record_blocks@, self.index.total_size as nat)
        &&& cache_limit(self.cache) == CACHE_CAPACITY
        &&& cache_entries(self.cache).len() <= CACHE_CAPACITY
        &&& distinct_queries(cache_entries(self.cache))
        &&& forall|i: int|
            0 <= i < cache_entries(self.cache).len() ==> entry_holds(
                self.file@,
                self.archive(),
                #[trigger] cache_entries(self.cache)[i],
            )
    }

    /// A well-formed store holds the header and the indexes of its file, and
    /// its cache stays within its capacity.
    pub proof fn lemma_wf(&self)
        requires
            self.wf(),
        ensures
            archive_parsed(self.file()) == Ok::<ArchiveView, MdictError>(self.archive()),
            self.cached().len() <= CACHE_CAPACITY,
            forall|i: int|
                0 <= i < self.cached().len() ==> found_in(self.file(), (#[trigger] self.cached()[i]).0)
                    == Ok::<Option<Found>, MdictError>(Some(self.cached()[i].1)),
    {
        assert forall|i: int| 0 <= i < self.cached().len() implies found_in(
            self.file(),
            (#[trigger] self.cached()[i]).0,
        ) == Ok::<Option<Found>, MdictError>(Some(self.cached()[i].1)) by {
            assert(entry_holds(self.file@, self.archive(), cache_entries(self.cache)[i]));
        }
    }

    /// Opens a store on the bytes of a file: reads the header, refuses a
    /// file whose key index is encrypted, and reads the two indexes.
    pub fn new(file: Vec<u8>) -> (r: Result<BlockStore, MdictError>)
        ensures
            r matches Ok(store) ==> store.wf() && store.file() == file@ && store.cached().len()
                == 0,
            r matches Err(e) ==> archive_parsed(file@) == Err::<ArchiveView, MdictError>(e),
    {
        let header = read_header(file.as_slice())?;
        if header.encryption.key_index {
            return Err(MdictError::UnsupportedEncryption);
        }
        let index = read_block_infos(file.as_slice(), &header)?;
        let ordered = index_is_ordered(
            &index.key_blocks,
            header.strip_key,
            header.key_case_sensitive,
        );
        let cache = cache_new(CACHE_CAPACITY);
        Ok(BlockStore { file, header, index, ordered, cache })
    }

    /// The header of the file.
    pub fn header(&self) -> (h: &DictionaryHeader)
        ensures
            h@ == self.archive().header,
    {
        &self.header
    }

    /// The number of entries that the file states for itself.
    pub fn num_entries(&self) -> (n: u64)
        ensures
            n == self.archive().index.num_entries,
    {
        self.index.num_entries
    }

    /// The number of entries in the cache.
    pub fn cached_len(&self) -> (n: usize)
        ensures
            n == self.cached().len(),
    {
        cache_len(&self.cache)
    }

    /// Whether the cache holds an answer for a normalized query. Asking does
    /// not count as a use.
    pub fn is_cached(&self, query: &[u8]) -> (r: bool)
        ensures
            r == (position_of(self.cached(), query@, 0) is Some),
    {
        cache_contains(&self.cache, query)
    }

    /// Gives the address at which the first entry of the key blocks from
    /// `from` on points, or the end of all records where no entry follows.
    fn following_address(&self, from: usize) -> (r: Result<u64, MdictError>)
        requires
            self.wf(),
        ensures
            r matches Ok(a) ==> next_address(self.file(), self.archive(), from as int) == Ok::<
                u64,
                MdictError,
            >(a),
            r matches Err(e) ==> next_address(self.file(), self.archive(), from as int) == Err::<
                u64,
                MdictError,
            >(e),
    {
        let mut b: usize = from;
        while b < self.index.key_blocks.len()
            invariant
                from <= b,
                next_address(self.file(), self.archive(), from as int) == next_address(
                    self.file(),
                    self.archive(),
                    b as int,
                ),
            decreases self.index.key_blocks@.len() - b,
        {
            assert(self.archive().index.key_blocks[b as int] == self.index.key_blocks@[b as int]@);
            let entries = read_key_block_entries(
                self.file.as_slice(),
                &self.index.key_blocks[b],
                &self.header,
            )?;
            if entries.len() > 0 {
                assert(entry_views(entries@)[0] == entries@[0]@);
                return Ok(entries[0].offset);
            }
            b = b + 1;
        }
        Ok(self.index.total_size)
    }

    /// Searches one key block for a normalized query. Gives the key of the
    /// first entry with that form, the address of its record and the
    /// record's length.
    pub fn search_in_key_block(&self, block: usize, target: &[u8]) -> (r: Result<
        Option<(String, u64, u64)>,
        MdictError,
    >)
        requires
            self.wf(),
        ensures
            r matches Ok(Some(hit)) ==> searched(self.file(), self.archive(), block as int, target@)
                == Ok::<Option<Located>, MdictError>(
                Some(Located { key: hit.0@, address: hit.1, length: hit.2 }),
            ),
            r matches Ok(None) ==> searched(self.file(), self.archive(), block as int, target@)
                == Ok::<Option<Located>, MdictError>(None),
            r matches Err(e) ==> searched(self.file(), self.archive(), block as int, target@)
                == Err::<Option<Located>, MdictError>(e),
    {
        if block >= self.index.key_blocks.len() {
            return Ok(None);
        }
        assert(self.archive().index.key_blocks[block as int] == self.index.key_blocks@[block as int]@);
        let entries = read_key_block_entries(
            self.file.as_slice(),
            &self.index.key_blocks[block],
            &self.header,
        )?;
        let i: usize = match find_entry(
            &entries,
            target,
            self.header.strip_key,
            self.header.key_case_sensitive,
        ) {
            None => {
                return Ok(None);
            },
            Some(i) => i,
        };
        assert(entry_views(entries@)[i as int] == entries@[i as int]@);
        let address: u64 = entries[i].offset;
        let next: u64 = if i + 1 < entries.len() {
            assert(entry_views(entries@)[i + 1] == entries@[i + 1]@);
            entries[i + 1].offset
        } else {
            self.following_address(block + 1)?
        };
        let length: u64 = if next > address {
            next - address
        } else {
            0
        };
        Ok(Some((entries[i].key.clone(), address, length)))
    }

    /// Finds the key for a normalized query: selects the key block whose
    /// range holds the query, and searches it. Gives the key as the file
    /// spells it, the address of its record and the record's length.
    pub fn key_search(&self, query: &[u8]) -> (r: Result<Option<(String, u64, u64)>, MdictError>)
        requires
            self.wf(),
        ensures
            r matches Ok(Some(hit)) ==> key_located(self.file(), self.archive(), query@) == Ok::<
                Option<Located>,
                MdictError,
            >(Some(Located { key: hit.0@, address: hit.1, length: hit.2 })),
            r matches Ok(None) ==> key_located(self.file(), self.archive(), query@) == Ok::<
                Option<Located>,
                MdictError,
            >(None),
            r matches Err(e) ==> key_located(self.file(), self.archive(), query@) == Err::<
                Option<Located>,
                MdictError,
            >(e),
    {
        match select_key_block(
            &self.index.key_blocks,
            self.ordered,
            query,
            self.header.strip_key,
            self.header.key_case_sensitive,
        ) {
            None => Ok(None),
            Some(block) => self.search_in_key_block(block, query),
        }
    }

    /// Resolves a normalized query against the file, without the cache:
    /// finds the key, and reads its record.
    pub fn resolve(&self, query: &[u8]) -> (r: Result<Option<(String, Vec<u8>)>, MdictError>)
        requires
            self.wf(),
        ensures
            r matches Ok(Some(hit)) ==> found_in(self.file(), query@) == Ok::<
                Option<Found>,
                MdictError,
            >(Some((hit.0@, hit.1@))),
            r matches Ok(None) ==> found_in(self.file(), query@) == Ok::<Option<Found>, MdictError>(
                None,
            ),
            r matches Err(e) ==> found_in(self.file(), query@) == Err::<Option<Found>, MdictError>(
                e,
            ),
    {
        let (key, address, length) = match self.key_search(query)? {
            None => {
                return Ok(None);
            },
            Some(hit) => hit,
        };
        if self.header.encryption.record {
            return Err(MdictError::UnsupportedEncryption);
        }
        let payload = read_record(
            self.file.as_slice(),
            &self.index.record_blocks,
            self.index.total_size,
            address,
            length,
        )?;
        Ok(Some((key, payload)))
    }

    /// Resolves a normalized query. An answer that the cache holds is
    /// given from the cache; any other is worked out from the file and,
    /// where a key was found, put into the cache. Either way the answer is
    /// what the file holds for the query.
    pub fn find(&mut self, query: &[u8]) -> (r: Result<Option<(String, Vec<u8>)>, MdictError>)
        requires
            old(self).wf(),
        ensures
            final(self).wf(),
            final(self).file() == old(self).file(),
            final(self).cached().len() <= CACHE_CAPACITY,
            r matches Ok(Some(hit)) ==> found_in(old(self).file(), query@) == Ok::<
                Option<Found>,
                MdictError,
            >(Some((hit.0@, hit.1@))) && final(self).cached() == used(
                old(self).cached(),
                (query@, (hit.0@, hit.1@)),
            ),
            r matches Ok(None) ==> found_in(old(self).file(), query@) == Ok::<
                Option<Found>,
                MdictError,
            >(None) && final(self).cached() == old(self).cached(),
            r matches Err(e) ==> found_in(old(self).file(), query@) == Err::<
                Option<Found>,
                MdictError,
            >(e) && final(self).cached() == old(self).cached(),
    {
        let ghost before = cache_entries(self.cache);
        proof {
            lemma_position_of(before, query@, 0);
        }
        match cache_get(&mut self.cache, query) {
            Some(value) => {
                proof {
                    let i = position_of(before, query@, 0).unwrap();
                    lemma_touched(before, i);
                    assert(entry_holds(self.file@, self.archive(), before[i]));
                    let after = cache_entries(self.cache);
                    assert forall|j: int| 0 <= j < after.len() implies entry_holds(
                        self.file@,
                        self.archive(),
                        #[trigger] after[j],
                    ) by {
                        let k = choose|k: int| 0 <= k < before.len() && before[k] == after[j];
                        assert(entry_holds(self.file@, self.archive(), before[k]));
                    }
                    assert(after[0] == before[i]);
                }
                Ok(Some(value))
            },
            None => {
                let hit = match self.resolve(query)? {
                    None => {
                        return Ok(None);
                    },
                    Some(hit) => hit,
                };
                let key = hit.0.clone();
                let payload = slice_to_vec(hit.1.as_slice());
                proof {
                    let entry: Cached = (query@, (hit.0@, hit.1@));
                    lemma_inserted(before, CACHE_CAPACITY as nat, entry);
                    let after = inserted(before, CACHE_CAPACITY as nat, entry);
                    assert(entry_holds(self.file@, self.archive(), entry));
                    assert forall|j: int| 0 <= j < after.len() implies entry_holds(
                        self.file@,
                        self.archive(),
                        #[trigger] after[j],
                    ) by {
                        if j > 0 {
                            let k = choose|k: int| 0 <= k < before.len() && before[k] == after[j];
                            assert(entry_holds(self.file@, self.archive(), before[k]));
                        }
                    }
                }
                cache_put(&mut self.cache, slice_to_vec(query), (key, payload));
                Ok(Some(hit))
            },
        }
    }

    /// Whether the range of keys of block `i` may hold a key that begins
    /// with a folded prefix.
    fn block_may_hold(&self, i: usize, prefix: &[u8]) -> (r: bool)
        requires
            i < self.archive().index.key_blocks.len(),
        ensures
            r == may_hold_prefix(
                self.archive().index.key_blocks[i as int],
                prefix@,
                self.archive().header.key_case_sensitive,
            ),
    {
        assert(self.archive().index.key_blocks[i as int] == self.index.key_blocks@[i as int]@);
        let case_sensitive = self.header.key_case_sensitive;
        let last = normalize(self.index.key_blocks[i].last_key.as_str().as_bytes(), false, case_sensitive);
        proof {
            lemma_lex_total(prefix@, last@);
        }
        match lex_order(prefix, last.as_slice()) {
            KeyOrder::After => {
                return false;
            },
            _ => {},
        }
        let first = normalize(
            self.index.key_blocks[i].first_key.as_str().as_bytes(),
            false,
            case_sensitive,
        );
        let mut bound = slice_to_vec(prefix);
        bound.push(0xff);
        match lex_order(first.as_slice(), bound.as_slice()) {
            KeyOrder::Before => true,
            _ => false,
        }
    }

    /// Scans the key blocks in order for keys whose folded form begins with
    /// a folded prefix, and gives the first `cap` of them.
    pub fn scan_prefix(&self, prefix: &[u8], cap: usize) -> (r: Result<Vec<String>, MdictError>)
        requires
            self.wf(),
        ensures
            r matches Ok(keys) ==> prefix_found(self.file(), prefix@, cap as nat) == Ok::<
                Seq<Seq<char>>,
                MdictError,
            >(texts(keys@)) && keys@.len() <= cap && forall|i: int|
                0 <= i < keys@.len() ==> prefix@.is_prefix_of(
                    fold_form(
                        (#[trigger] keys@[i])@,
                        self.archive().header.key_case_sensitive,
                    ),
                ),
            r matches Err(e) ==> prefix_found(self.file(), prefix@, cap as nat) == Err::<
                Seq<Seq<char>>,
                MdictError,
            >(e),
    {
        let mut keys: Vec<String> = Vec::new();
        let mut b: usize = 0;
        let count: usize = self.index.key_blocks.len();
        let case_sensitive = self.header.key_case_sensitive;
        assert(texts(keys@) =~= Seq::<Seq<char>>::empty());
        while b < count
            invariant
                self.wf(),
                count == self.archive().index.key_blocks.len(),
                case_sensitive == self.archive().header.key_case_sensitive,
                b <= count,
                keys@.len() <= cap,
                prefix_scan(self.file(), self.archive(), prefix@, cap as nat, b as int) == Ok::<
                    Seq<Seq<char>>,
                    MdictError,
                >(texts(keys@)),
            decreases count - b,
        {
            proof {
                lemma_scan_fails_on(
                    self.file(),
                    self.archive(),
                    prefix@,
                    cap as nat,
                    b + 1,
                    count as int,
                );
            }
            if keys.len() < cap && self.block_may_hold(b, prefix) {
                assert(self.archive().index.key_blocks[b as int] == self.index.key_blocks@[b as int]@);
                match read_key_block_entries(
                    self.file.as_slice(),
                    &self.index.key_blocks[b],
                    &self.header,
                ) {
                    Err(MdictError::Io) => {
                        return Err(MdictError::Io);
                    },
                    Err(_) => {},
                    Ok(entries) => {
                        let ghost before = texts(keys@);
                        let ghost views = entry_views(entries@);
                        let mut i: usize = 0;
                        while i < entries.len() && keys.len() < cap
                            invariant
                                i <= entries@.len(),
                                views == entry_views(entries@),
                                before.len() <= cap,
                                keys@.len() <= cap,
                                texts(keys@) == capped(
                                    before + matching_keys(
                                        views,
                                        prefix@,
                                        case_sensitive,
                                        i as int,
                                    ),
                                    cap as nat,
                                ),
                                keys@.len() < cap ==> texts(keys@) == before + matching_keys(
                                    views,
                                    prefix@,
                                    case_sensitive,
                                    i as int,
                                ),
                            decreases entries@.len() - i,
                        {
                            let form = normalize(
                                entries[i].key.as_str().as_bytes(),
                                false,
                                case_sensitive,
                            );
                            assert(views[i as int] == entries@[i as int]@);
                            if has_prefix(form.as_slice(), prefix) {
                                let ghost held = texts(keys@);
                                keys.push(entries[i].key.clone());
                                assert(texts(keys@) =~= held.push(entries@[i as int].key@));
                                assert(before + matching_keys(
                                    views,
                                    prefix@,
                                    case_sensitive,
                                    i + 1,
                                ) =~= held.push(entries@[i as int].key@));
                            }
                            i = i + 1;
                        }
                        proof {
                            lemma_capped_stays(
                                before,
                                views,
                                prefix@,
                                case_sensitive,
                                i as int,
                                views.len() as int,
                                cap as nat,
                            );
                        }
                    },
                }
            }
            b = b + 1;
        }
        proof {
            lemma_prefix_scan(self.file(), self.archive(), prefix@, cap as nat, count as int);
            assert forall|i: int| 0 <= i < keys@.len() implies prefix@.is_prefix_of(
                fold_form((#[trigger] keys@[i])@, self.archive().header.key_case_sensitive),
            ) by {
                assert(texts(keys@)[i] == keys@[i]@);
            }
        }
        Ok(keys)
    }
}

/// The matching keys among more entries begin with those among fewer.
pub proof fn lemma_matching_grows(
    entries: Seq<KeyEntryView>,
    prefix: Seq<u8>,
    case_sensitive: bool,
    i: int,
    j: int,
)
    requires
        0 <= i <= j,
    ensures
        matching_keys(entries, prefix, case_sensitive, i).is_prefix_of(
            matching_keys(entries, prefix, case_sensitive, j),
        ),
    decreases j - i,
{
    if i < j {
        lemma_matching_grows(entries, prefix, case_sensitive, i, j - 1);
    }
}

/// Once the cap is reached, further entries add nothing to the capped keys.
pub proof fn lemma_capped_stays(
    before: Seq<Seq<char>>,
    entries: Seq<KeyEntryView>,
    prefix: Seq<u8>,
    case_sensitive: bool,
    i: int,
    j: int,
    cap: nat,
)
    requires
        0 <= i <= j,
        i < j ==> (before + matching_keys(entries, prefix, case_sensitive, i)).len() >= cap,
    ensures
        capped(before + matching_keys(entries, prefix, case_sensitive, i), cap) == capped(
            before + matching_keys(entries, prefix, case_sensitive, j),
            cap,
        ),
{
    if i < j {
        lemma_matching_grows(entries, prefix, case_sensitive, i, j);
        let a = before + matching_keys(entries, prefix, case_sensitive, i);
        let b = before + matching_keys(entries, prefix, case_sensitive, j);
        assert(capped(a, cap) =~= capped(b, cap));
    }
}

/// A scan that fails after `reached` blocks fails for every larger number.
pub proof fn lemma_scan_fails_on(
    file: Seq<u8>,
    archive: ArchiveView,
    prefix: Seq<u8>,
    cap: nat,
    reached: int,
    blocks: int,
)
    requires
        0 <= reached <= blocks,
    ensures
        prefix_scan(file, archive, prefix, cap, reached) matches Err(e) ==> prefix_scan(
            file,
            archive,
            prefix,
            cap,
            blocks,
        ) == Err::<Seq<Seq<char>>, MdictError>(e),
    decreases blocks - reached,
{
    if reached < blocks {
        lemma_scan_fails_on(file, archive, prefix, cap, reached, blocks - 1);
    }
}

/// Every key among the matching keys begins, in its folded form, with the prefix.
pub proof fn lemma_matching_keys(
    entries: Seq<KeyEntryView>,
    prefix: Seq<u8>,
    case_sensitive: bool,
    count: int,
)
    ensures
        forall|i: int|
            0 <= i < matching_keys(entries, prefix, case_sensitive, count).len()
                ==> prefix.is_prefix_of(
                fold_form(
                    #[trigger] matching_keys(entries, prefix, case_sensitive, count)[i],
                    case_sensitive,
                ),
            ),
    decreases count,
{
    if count > 0 {
        lemma_matching_keys(entries, prefix, case_sensitive, count - 1);
        let before = matching_keys(entries, prefix, case_sensitive, count - 1);
        let now = matching_keys(entries, prefix, case_sensitive, count);
        assert forall|i: int| 0 <= i < now.len() implies prefix.is_prefix_of(
            fold_form(#[trigger] now[i], case_sensitive),
        ) by {
            if i < before.len() {
                assert(now[i] == before[i]);
            }
        }
    }
}

/// Every key that a prefix scan gives begins, in its folded form, with the
/// folded prefix, and the scan gives no more keys than the cap.
pub proof fn lemma_prefix_scan(
    file: Seq<u8>,
    archive: ArchiveView,
    prefix: Seq<u8>,
    cap: nat,
    blocks: int,
)
    ensures
        prefix_scan(file, archive, prefix, cap, blocks) matches Ok(keys) ==> keys.len() <= cap
            && forall|i: int|
            0 <= i < keys.len() ==> prefix.is_prefix_of(
                fold_form(#[trigger] keys[i], archive.header.key_case_sensitive),
            ),
    decreases blocks,
{
    if blocks > 0 {
        lemma_prefix_scan(file, archive, prefix, cap, blocks - 1);
        match prefix_scan(file, archive, prefix, cap, blocks - 1) {
            Ok(keys) => {
                match key_block_decoded(
                    file,
                    archive.index.key_blocks[blocks - 1],
                    archive.header,
                ) {
                    Ok(entries) => {
                        lemma_matching_keys(
                            entries,
                            prefix,
                            archive.header.key_case_sensitive,
                            entries.len() as int,
                        );
                    },
                    Err(_) => {},
                }
            },
            Err(_) => {},
        }
    }
}

/// Whether a normalized query appears as a key in the block whose range
/// holds it, and that block decodes.
pub open spec fn key_appears(file: Seq<u8>, archive: ArchiveView, query: Seq<u8>) -> bool {
    match holding_key_block(
        archive.index.key_blocks,
        query,
        archive.header.strip_key,
        archive.header.key_case_sensitive,
        0,
    ) {
        None => false,
        Some(block) => match key_block_decoded(
            file,
            archive.index.key_blocks[block],
            archive.header,
        ) {
            Err(_) => false,
            Ok(entries) => exists|i: int|
                0 <= i < entries.len() && key_form(
                    #[trigger] entries[i].key,
                    archive.header.strip_key,
                    archive.header.key_case_sensitive,
                ) == query,
        },
    }
}

/// Whether the record of a normalized query can be read: its length can
/// be told, the records are not encrypted, and its block decodes.
pub open spec fn record_reads(file: Seq<u8>, archive: ArchiveView, query: Seq<u8>) -> bool {
    match key_located(file, archive, query) {
        Ok(Some(located)) => !archive.header.encryption.record && record_read(
            file,
            archive.index.record_blocks,
            located.address,
            located.length,
        ) is Ok,
        _ => false,
    }
}

/// A query resolves to a key and its record exactly where the query
/// appears as a key in the block whose range holds it and the record can
/// be read.
pub proof fn lemma_found_iff(file: Seq<u8>, archive: ArchiveView, query: Seq<u8>)
    ensures
        found(file, archive, query) matches Ok(Some(_)) <==> key_appears(file, archive, query)
            && record_reads(file, archive, query),
{
    let strip = archive.header.strip_key;
    let case_sensitive = archive.header.key_case_sensitive;
    let blocks = archive.index.key_blocks;
    crate::keys::lemma_holding_key_block(blocks, query, strip, case_sensitive, 0);
    match holding_key_block(blocks, query, strip, case_sensitive, 0) {
        None => {},
        Some(block) => {
            match key_block_decoded(file, blocks[block], archive.header) {
                Err(_) => {},
                Ok(entries) => {
                    lemma_first_match(entries, query, strip, case_sensitive, 0);
                    match first_match(entries, query, strip, case_sensitive, 0) {
                        Some(i) => {
                            assert(key_form(entries[i].key, strip, case_sensitive) == query);
                        },
                        None => {},
                    }
                },
            }
        },
    }
}

/// The key that a query resolves to has the query as its normalized form.
pub proof fn lemma_found_key_form(file: Seq<u8>, archive: ArchiveView, query: Seq<u8>)
    ensures
        found(file, archive, query) matches Ok(Some(hit)) ==> key_form(
            hit.0,
            archive.header.strip_key,
            archive.header.key_case_sensitive,
        ) == query,
{
    let strip = archive.header.strip_key;
    let case_sensitive = archive.header.key_case_sensitive;
    let blocks = archive.index.key_blocks;
    crate::keys::lemma_holding_key_block(blocks, query, strip, case_sensitive, 0);
    match holding_key_block(blocks, query, strip, case_sensitive, 0) {
        None => {},
        Some(block) => {
            match key_block_decoded(file, blocks[block], archive.header) {
                Err(_) => {},
                Ok(entries) => {
                    lemma_first_match(entries, query, strip, case_sensitive, 0);
                },
            }
        },
    }
}

} // verus!
