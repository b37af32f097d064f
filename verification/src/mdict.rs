//! The two readers: text dictionaries and resource archives.

use crate::error::MdictError;
use crate::cache::Cached;
use crate::store::{
    archive_parsed, found, found_in, key_appears, lemma_found_iff, lemma_found_key_form,
    lemma_prefix_scan, prefix_found, record_reads, used, ArchiveView, BlockStore, CACHE_CAPACITY,
};
use crate::text::{
    decode_text, fold_form, key_form, key_form_of, normalize, text_of, texts, Encoding,
};
use vstd::prelude::*;
use vstd::string::StrSliceExecFns;
use vstd::string::StringExecFns;

verus! {

/// A headword as the dictionary spells it, and its definition.
#[derive(Debug, Clone)]
pub struct DictionaryEntry {
    pub word: String,
    pub definition: String,
}

/// What a reader tells of its file.
#[derive(Debug, Clone)]
pub struct HeaderInfo {
    pub title: String,
    pub description: String,
    pub encoding: Encoding,
    /// The number of entries that the file states for itself.
    pub entry_count: u64,
}

/// What a word and its definition amount to.
pub type Answer = (Seq<char>, Seq<char>);

/// The normalized form under which a file looks a word up.
pub open spec fn query_of(file: Seq<u8>, word: Seq<char>) -> Seq<u8> {
    key_form(
        word,
        archive_parsed(file)->Ok_0.header.strip_key,
        archive_parsed(file)->Ok_0.header.key_case_sensitive,
    )
}

/// What a cache holds after a query was answered by a file: an answer with
/// a key counts as used, any other leaves the cache as it was.
pub open spec fn cache_after(cached: Seq<Cached>, file: Seq<u8>, query: Seq<u8>) -> Seq<Cached> {
    match found_in(file, query) {
        Ok(Some(hit)) => used(cached, (query, hit)),
        _ => cached,
    }
}

/// What a file answers to a word: nothing where it holds no key with the
/// word's normalized form; else the key as the file spells it, and the
/// text of its record in the file's codec.
pub open spec fn lookup_answer(file: Seq<u8>, word: Seq<char>) -> Result<
    Option<Answer>,
    MdictError,
> {
    match archive_parsed(file) {
        Err(e) => Err(e),
        Ok(archive) => match found(
            file,
            archive,
            key_form(word, archive.header.strip_key, archive.header.key_case_sensitive),
        ) {
            Err(e) => Err(e),
            Ok(None) => Ok(None),
            Ok(Some(hit)) => Ok(Some((hit.0, text_of(hit.1, archive.header.encoding)))),
        },
    }
}

/// The keys that a file holds for a prefix, in the order of the file and
/// no more than `cap`: those whose folded form begins with the folded form
/// of the prefix.
pub open spec fn prefix_answer(file: Seq<u8>, prefix: Seq<char>, cap: nat) -> Result<
    Seq<Seq<char>>,
    MdictError,
> {
    match archive_parsed(file) {
        Err(e) => Err(e),
        Ok(archive) => prefix_found(
            file,
            fold_form(prefix, archive.header.key_case_sensitive),
            cap,
        ),
    }
}

/// A resource's name with a leading slash: the name itself where it has
/// one, else the name behind a slash.
pub open spec fn resource_name(name: Seq<char>) -> Seq<char> {
    if name.len() > 0 && name[0] == '/' {
        name
    } else {
        seq!['/'] + name
    }
}

/// What an archive answers to a resource's name: nothing where it holds no
/// key with the normalized form of the name with its leading slash; else
/// the bytes of the resource.
pub open spec fn locate_answer(file: Seq<u8>, name: Seq<char>) -> Result<
    Option<Seq<u8>>,
    MdictError,
> {
    match archive_parsed(file) {
        Err(e) => Err(e),
        Ok(archive) => match found(
            file,
            archive,
            key_form(
                resource_name(name),
                archive.header.strip_key,
                archive.header.key_case_sensitive,
            ),
        ) {
            Err(e) => Err(e),
            Ok(None) => Ok(None),
            Ok(Some(hit)) => Ok(Some(hit.1)),
        },
    }
}

/// Whether a word's normalized form appears as a key in the key block
/// whose range holds it, and that block decodes.
pub open spec fn word_appears(file: Seq<u8>, word: Seq<char>) -> bool {
    archive_parsed(file) matches Ok(archive) && key_appears(
        file,
        archive,
        key_form(word, archive.header.strip_key, archive.header.key_case_sensitive),
    )
}

/// Whether the record of a word can be read: its length can be told, the
/// records are not encrypted, and the record's block decodes.
pub open spec fn word_reads(file: Seq<u8>, word: Seq<char>) -> bool {
    archive_parsed(file) matches Ok(archive) && record_reads(
        file,
        archive,
        key_form(word, archive.header.strip_key, archive.header.key_case_sensitive),
    )
}

/// A reader of a text dictionary.
pub struct MdxDictionary {
    store: BlockStore,
}

impl MdxDictionary {
    /// The bytes of the file that the reader was opened on.
    pub closed spec fn file(&self) -> Seq<u8> {
        self.store.file()
    }

    /// What the reader's cache holds, the most recently used answer first:
    /// normalized queries, each with the key and the record that it
    /// resolved to.
    pub closed spec fn cache(&self) -> Seq<Cached> {
        self.store.cached()
    }

    /// The number of answers in the reader's cache.
    pub open spec fn cached(&self) -> nat {
        self.cache().len()
    }

    /// Whether the reader is what opening its file gives, with a cache
    /// that holds nothing but what the file answers.
    pub closed spec fn wf(&self) -> bool {
        self.store.wf()
    }

    /// Opens a reader on the bytes of a dictionary file. It fails where the
    /// header or the indexes cannot be read, and where the key index is
    /// encrypted.
    pub fn new(file: Vec<u8>) -> (r: Result<MdxDictionary, MdictError>)
        ensures
            r matches Ok(reader) ==> reader.wf() && reader.file() == file@ && reader.cached() == 0
                && archive_parsed(file@) is Ok,
            r matches Err(e) ==> archive_parsed(file@) == Err::<ArchiveView, MdictError>(e),
    {
        match BlockStore::new(file) {
            Ok(store) => {
                proof {
                    store.lemma_wf();
                }
                Ok(MdxDictionary { store })
            },
            Err(e) => Err(e),
        }
    }

    /// Looks a word up. The answer is what the file holds for the word,
    /// whether it comes from the cache or from the file; the file stays as
    /// it is, and the cache stays within its capacity.
    pub fn lookup(&mut self, word: &str) -> (r: Result<Option<DictionaryEntry>, MdictError>)
        requires
            old(self).wf(),
        ensures
            final(self).wf(),
            final(self).file() == old(self).file(),
            final(self).cached() <= CACHE_CAPACITY,
            r matches Ok(Some(entry)) ==> lookup_answer(old(self).file(), word@) == Ok::<
                Option<Answer>,
                MdictError,
            >(Some((entry.word@, entry.definition@))),
            r matches Ok(None) ==> lookup_answer(old(self).file(), word@) == Ok::<
                Option<Answer>,
                MdictError,
            >(None),
            r matches Err(e) ==> lookup_answer(old(self).file(), word@) == Err::<
                Option<Answer>,
                MdictError,
            >(e),
            r matches Ok(Some(_)) <==> word_appears(old(self).file(), word@) && word_reads(
                old(self).file(),
                word@,
            ),
            final(self).cache() == cache_after(
                old(self).cache(),
                old(self).file(),
                query_of(old(self).file(), word@),
            ),
    {
        proof {
            self.store.lemma_wf();
            lemma_lookup_some_iff(self.file(), word@);
        }
        let header = self.store.header();
        let strip = header.strip_key;
        let case_sensitive = header.key_case_sensitive;
        let encoding = header.encoding;
        let query = key_form_of(word, strip, case_sensitive);
        match self.store.find(query.as_slice()) {
            Err(e) => Err(e),
            Ok(None) => Ok(None),
            Ok(Some(hit)) => {
                let definition = decode_text(hit.1.as_slice(), encoding);
                Ok(Some(DictionaryEntry { word: hit.0, definition }))
            },
        }
    }

    /// Lists the keys that begin with a prefix, in the order of the file
    /// and no more than `cap`. Capital and small letters count as the same
    /// where the file says so.
    pub fn prefix_search(&self, prefix: &str, cap: usize) -> (r: Result<Vec<String>, MdictError>)
        requires
            self.wf(),
        ensures
            r matches Ok(keys) ==> prefix_answer(self.file(), prefix@, cap as nat) == Ok::<
                Seq<Seq<char>>,
                MdictError,
            >(texts(keys@)) && keys@.len() <= cap && forall|i: int|
                0 <= i < keys@.len() ==> fold_form(
                    prefix@,
                    archive_parsed(self.file())->Ok_0.header.key_case_sensitive,
                ).is_prefix_of(
                    fold_form(
                        (#[trigger] keys@[i])@,
                        archive_parsed(self.file())->Ok_0.header.key_case_sensitive,
                    ),
                ),
            r matches Err(e) ==> prefix_answer(self.file(), prefix@, cap as nat) == Err::<
                Seq<Seq<char>>,
                MdictError,
            >(e),
    {
        proof {
            self.store.lemma_wf();
        }
        let case_sensitive = self.store.header().key_case_sensitive;
        let folded = normalize(prefix.as_bytes(), false, case_sensitive);
        self.store.scan_prefix(folded.as_slice(), cap)
    }

    /// Tells the title, the description, the codec and the number of
    /// entries of the file.
    pub fn header_info(&self) -> (info: HeaderInfo)
        requires
            self.wf(),
        ensures
            archive_parsed(self.file()) matches Ok(archive) && info.title@ == archive.header.title
                && info.description@ == archive.header.description && info.encoding
                == archive.header.encoding && info.entry_count == archive.index.num_entries,
    {
        proof {
            self.store.lemma_wf();
        }
        let header = self.store.header();
        HeaderInfo {
            title: header.title.clone(),
            description: header.description.clone(),
            encoding: header.encoding,
            entry_count: self.store.num_entries(),
        }
    }

    /// The number of answers in the cache.
    pub fn cached_count(&self) -> (n: usize)
        ensures
            n == self.cached(),
    {
        self.store.cached_len()
    }
}

/// A reader of a resource archive.
pub struct MddResource {
    store: BlockStore,
}

/// Gives a resource's name a leading slash where it has none.
pub fn with_leading_slash(name: &str) -> (r: String)
    ensures
        r@ == resource_name(name@),
{
    if !name.is_empty() && name.get_char(0) == '/' {
        name.to_owned()
    } else {
        proof {
            reveal_strlit("/");
        }
        let mut full = "/".to_owned();
        full.append(name);
        assert("/"@ =~= seq!['/']);
        full
    }
}

impl MddResource {
    /// The bytes of the file that the reader was opened on.
    pub closed spec fn file(&self) -> Seq<u8> {
        self.store.file()
    }

    /// What the reader's cache holds, the most recently used resource
    /// first: normalized names, each with the key and the bytes that it
    /// resolved to.
    pub closed spec fn cache(&self) -> Seq<Cached> {
        self.store.cached()
    }

    /// The number of resources in the reader's cache.
    pub open spec fn cached(&self) -> nat {
        self.cache().len()
    }

    /// Whether the reader is what opening its file gives, with a cache
    /// that holds nothing but what the file answers.
    pub closed spec fn wf(&self) -> bool {
        self.store.wf()
    }

    /// Opens a reader on the bytes of a resource archive. It fails where
    /// the header or the indexes cannot be read, and where the key index
    /// is encrypted.
    pub fn new(file: Vec<u8>) -> (r: Result<MddResource, MdictError>)
        ensures
            r matches Ok(reader) ==> reader.wf() && reader.file() == file@ && reader.cached() == 0
                && archive_parsed(file@) is Ok,
            r matches Err(e) ==> archive_parsed(file@) == Err::<ArchiveView, MdictError>(e),
    {
        match BlockStore::new(file) {
            Ok(store) => {
                proof {
                    store.lemma_wf();
                }
                Ok(MddResource { store })
            },
            Err(e) => Err(e),
        }
    }

    /// Fetches a resource by its name, with or without a leading slash.
    /// The answer is what the archive holds for the name, whether it comes
    /// from the cache or from the file.
    pub fn locate(&mut self, resource_name: &str) -> (r: Result<Option<Vec<u8>>, MdictError>)
        requires
            old(self).wf(),
        ensures
            final(self).wf(),
            final(self).file() == old(self).file(),
            final(self).cached() <= CACHE_CAPACITY,
            r matches Ok(Some(bytes)) ==> locate_answer(old(self).file(), resource_name@) == Ok::<
                Option<Seq<u8>>,
                MdictError,
            >(Some(bytes@)),
            r matches Ok(None) ==> locate_answer(old(self).file(), resource_name@) == Ok::<
                Option<Seq<u8>>,
                MdictError,
            >(None),
            r matches Err(e) ==> locate_answer(old(self).file(), resource_name@) == Err::<
                Option<Seq<u8>>,
                MdictError,
            >(e),
            final(self).cache() == cache_after(
                old(self).cache(),
                old(self).file(),
                query_of(old(self).file(), self::resource_name(resource_name@)),
            ),
    {
        proof {
            self.store.lemma_wf();
        }
        let name = with_leading_slash(resource_name);
        let header = self.store.header();
        let query = key_form_of(name.as_str(), header.strip_key, header.key_case_sensitive);
        match self.store.find(query.as_slice()) {
            Err(e) => Err(e),
            Ok(None) => Ok(None),
            Ok(Some(hit)) => Ok(Some(hit.1)),
        }
    }

    /// Tells the title, the description, the codec and the number of
    /// entries of the archive.
    pub fn header_info(&self) -> (info: HeaderInfo)
        requires
            self.wf(),
        ensures
            archive_parsed(self.file()) matches Ok(archive) && info.title@ == archive.header.title
                && info.description@ == archive.header.description && info.encoding
                == archive.header.encoding && info.entry_count == archive.index.num_entries,
    {
        proof {
            self.store.lemma_wf();
        }
        let header = self.store.header();
        HeaderInfo {
            title: header.title.clone(),
            description: header.description.clone(),
            encoding: header.encoding,
            entry_count: self.store.num_entries(),
        }
    }

    /// The number of resources in the cache.
    pub fn cached_count(&self) -> (n: usize)
        ensures
            n == self.cached(),
    {
        self.store.cached_len()
    }
}

/// Every key that a prefix search gives begins, in its folded form, with
/// the folded form of the prefix.
pub proof fn lemma_prefix_answer(file: Seq<u8>, prefix: Seq<char>, cap: nat)
    ensures
        prefix_answer(file, prefix, cap) matches Ok(keys) ==> keys.len() <= cap && forall|i: int|
            0 <= i < keys.len() ==> fold_form(
                prefix,
                archive_parsed(file)->Ok_0.header.key_case_sensitive,
            ).is_prefix_of(
                fold_form(#[trigger] keys[i], archive_parsed(file)->Ok_0.header.key_case_sensitive),
            ),
{
    match archive_parsed(file) {
        Ok(archive) => {
            lemma_prefix_scan(
                file,
                archive,
                fold_form(prefix, archive.header.key_case_sensitive),
                cap,
                archive.index.key_blocks.len() as int,
            );
        },
        Err(_) => {},
    }
}

/// A lookup gives an entry exactly where the word's normalized form
/// appears as a key in the key block whose range holds it, and the key's
/// record can be read.
pub proof fn lemma_lookup_some_iff(file: Seq<u8>, word: Seq<char>)
    ensures
        lookup_answer(file, word) matches Ok(Some(_)) <==> word_appears(file, word) && word_reads(
            file,
            word,
        ),
{
    match archive_parsed(file) {
        Ok(archive) => {
            lemma_found_iff(
                file,
                archive,
                key_form(word, archive.header.strip_key, archive.header.key_case_sensitive),
            );
        },
        Err(_) => {},
    }
}

/// Looking up the word that a lookup gave gives the same entry again.
pub proof fn lemma_lookup_idempotent(file: Seq<u8>, word: Seq<char>)
    ensures
        lookup_answer(file, word) matches Ok(Some(entry)) ==> lookup_answer(file, entry.0)
            == lookup_answer(file, word),
{
    match archive_parsed(file) {
        Ok(archive) => {
            lemma_found_key_form(
                file,
                archive,
                key_form(word, archive.header.strip_key, archive.header.key_case_sensitive),
            );
        },
        Err(_) => {},
    }
}

/// What a reader answers to a word depends on its file alone: a reader
/// that holds the same file, whatever its cache holds, gives the same answer.
pub proof fn lemma_lookup_repeatable(first: MdxDictionary, second: MdxDictionary, word: Seq<char>)
    requires
        second.file() == first.file(),
    ensures
        lookup_answer(second.file(), word) == lookup_answer(first.file(), word),
{
}

/// A resource's name resolves as the same name behind a slash.
pub proof fn lemma_locate_slash(file: Seq<u8>, name: Seq<char>)
    ensures
        resource_name(resource_name(name)) == resource_name(name),
        locate_answer(file, resource_name(name)) == locate_answer(file, name),
        name.len() == 0 || name[0] != '/' ==> locate_answer(file, seq!['/'] + name)
            == locate_answer(file, name),
{
}

impl MdxDictionary {
    /// The cache of a reader never holds more than its capacity.
    pub proof fn lemma_cache_bounded(&self)
        requires
            self.wf(),
        ensures
            self.cached() <= CACHE_CAPACITY,
    {
        self.store.lemma_wf();
    }
}

impl MddResource {
    /// The cache of a reader never holds more than its capacity.
    pub proof fn lemma_cache_bounded(&self)
        requires
            self.wf(),
        ensures
            self.cached() <= CACHE_CAPACITY,
    {
        self.store.lemma_wf();
    }
}

} // verus!
