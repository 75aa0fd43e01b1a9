use crate::path::{path_error_text, prefixed, entry_of, normalize, normalize_spec, path_entry, PathEntry, PathError};
use std::io::Read;
use vstd::prelude::*;

verus! {

#[verifier::external_type_specification]
#[verifier::external_body]
pub struct ExZipError(zip::result::ZipError);

/// The number of entries of the zip archive in `bytes`, or `None` when the
/// archive cannot be opened.
pub uninterp spec fn zip_count_of(bytes: Seq<u8>) -> Option<int>;

/// Whether entry `i` of the zip archive in `bytes` is a regular file, and its
/// name; `None` when the archive or that entry's header cannot be read.
pub uninterp spec fn zip_header_of(bytes: Seq<u8>, i: int) -> Option<(bool, Seq<char>)>;

/// The decompressed contents of entry `i` of the zip archive in `bytes`;
/// `None` when they cannot be read.
pub uninterp spec fn zip_data_of(bytes: Seq<u8>, i: int) -> Option<Seq<u8>>;

/// Relies on zip::ZipArchive::new and zip::ZipArchive::len: the number of
/// entries in the central directory of an archive held in memory.
#[verifier::external_body]
fn container_len(bytes: &Vec<u8>) -> (r: Result<usize, zip::result::ZipError>)
    ensures
        r is Ok <==> zip_count_of(bytes@) is Some,
        r matches Ok(n) ==> zip_count_of(bytes@) == Some(n as int),
{
    let archive = zip::ZipArchive::new(std::io::Cursor::new(bytes.as_slice()))?;
    Ok(archive.len())
}

/// Relies on zip::ZipArchive::by_index, with ZipFile::is_file and
/// ZipFile::name: the header of one entry of an archive held in memory.
#[verifier::external_body]
fn entry_header(bytes: &Vec<u8>, index: usize) -> (r: Result<ContainerEntry, zip::result::ZipError>)
    ensures
        r is Ok <==> zip_header_of(bytes@, index as int) is Some,
        r matches Ok(e) ==> zip_header_of(bytes@, index as int) == Some((e.is_file, e.name@)),
{
    let mut archive = zip::ZipArchive::new(std::io::Cursor::new(bytes.as_slice()))?;
    let entry = archive.by_index(index)?;
    let name = entry.name()?.into_owned();
    Ok(ContainerEntry { is_file: entry.is_file(), name })
}

/// Relies on zip::ZipArchive::by_index and `Read::read_to_end` on the entry:
/// the decompressed contents of one entry of an archive held in memory.
#[verifier::external_body]
fn entry_contents(bytes: &Vec<u8>, index: usize) -> (r: Result<Vec<u8>, zip::result::ZipError>)
    ensures
        r is Ok <==> zip_data_of(bytes@, index as int) is Some,
        r matches Ok(data) ==> zip_data_of(bytes@, index as int) == Some(data@),
{
    let mut archive = zip::ZipArchive::new(std::io::Cursor::new(bytes.as_slice()))?;
    let mut entry = archive.by_index(index)?;
    let mut buffer: Vec<u8> = Vec::new();
    entry.read_to_end(&mut buffer)?;
    Ok(buffer)
}

/// Relies on the `Display` of zip::result::ZipError: its message.
#[verifier::external_body]
fn describe_zip_error(e: &zip::result::ZipError) -> (r: String) {
    format!("{e}")
}

/// Lower-case form of a string, as `str::to_lowercase` gives it.
pub uninterp spec fn lower_of(s: Seq<char>) -> Seq<char>;

/// Relies on str::to_lowercase: the result depends on the characters alone.
#[verifier::external_body]
fn lowercase(s: &str) -> (r: String)
    ensures
        r@ == lower_of(s@),
{
    s.to_lowercase()
}

/// Why an archive could not be indexed.
#[derive(Debug)]
pub enum IndexError {
    /// No regular file entry with the package extension.
    MissingPackageEntry,
    /// The zip layer rejected the archive; carries its message.
    ContainerCorrupt(String),
    /// The package reader rejected the package entry; carries its message.
    PackageFormatError(String),
    /// A packed record did not normalize.
    Path(PathError),
    /// The archive could not be read from local storage; carries the message.
    Io(String),
}

/// The message of an indexing error.
pub open spec fn index_error_text(e: IndexError) -> Seq<char> {
    match e {
        IndexError::MissingPackageEntry => "no package entry in archive"@,
        IndexError::ContainerCorrupt(m) => "corrupt container: "@ + m@,
        IndexError::PackageFormatError(m) => "package format error: "@ + m@,
        IndexError::Path(p) => path_error_text(p),
        IndexError::Io(m) => "i/o error: "@ + m@,
    }
}

impl IndexError {
    /// The message of this error, with what it carries.
    pub fn message(&self) -> (r: String)
        ensures
            r@ == index_error_text(*self),
    {
        match self {
            IndexError::MissingPackageEntry => "no package entry in archive".to_owned(),
            IndexError::ContainerCorrupt(m) => prefixed("corrupt container: ", m.as_str()),
            IndexError::PackageFormatError(m) => prefixed("package format error: ", m.as_str()),
            IndexError::Path(p) => p.message(),
            IndexError::Io(m) => prefixed("i/o error: ", m.as_str()),
        }
    }
}

/// Header of one entry of a container.
#[derive(Debug)]
pub struct ContainerEntry {
    pub is_file: bool,
    pub name: String,
}

/// The index of a package: its mount point and its records in order.
#[derive(Debug)]
pub struct PackageIndex {
    pub mount_point: String,
    pub records: Vec<String>,
}

pub open spec fn package_suffix() -> Seq<char> {
    seq!['.', 'p', 'a', 'k']
}

pub open spec fn ends_with(s: Seq<char>, suffix: Seq<char>) -> bool {
    suffix.len() <= s.len() && s.subrange(s.len() - suffix.len(), s.len() as int) == suffix
}

/// A header is that of the package entry when it is a regular file whose
/// lower-cased name ends in the package extension.
pub open spec fn is_package_header(h: (bool, Seq<char>)) -> bool {
    h.0 && ends_with(lower_of(h.1), package_suffix())
}

pub open spec fn is_package_entry(e: ContainerEntry) -> bool {
    is_package_header((e.is_file, e.name@))
}

/// Entry `k` of the archive in `bytes` is its package entry: every header up
/// to it reads, and it is the first that qualifies.
pub open spec fn first_package_entry(bytes: Seq<u8>, k: int) -> bool {
    &&& zip_count_of(bytes) matches Some(n) && 0 <= k < n
    &&& zip_header_of(bytes, k) matches Some(h) && is_package_header(h)
    &&& forall|j: int|
        0 <= j < k ==> (#[trigger] zip_header_of(bytes, j) matches Some(h) && !is_package_header(h))
}

/// The archive in `bytes` opens, every header reads, and none qualifies.
pub open spec fn lacks_package_entry(bytes: Seq<u8>) -> bool {
    &&& zip_count_of(bytes) is Some
    &&& forall|j: int|
        0 <= j < zip_count_of(bytes)->Some_0 ==> (#[trigger] zip_header_of(bytes, j) matches Some(
            h,
        ) && !is_package_header(h))
}

/// The package bytes of the archive in `bytes`, when it has a package entry
/// whose contents read.
pub open spec fn package_of(bytes: Seq<u8>) -> Option<Seq<u8>> {
    if exists|k: int| #[trigger] first_package_entry(bytes, k) {
        zip_data_of(bytes, choose|k: int| #[trigger] first_package_entry(bytes, k))
    } else {
        None
    }
}

/// There is one package entry at most.
pub proof fn lemma_first_package_entry_unique(bytes: Seq<u8>, k1: int, k2: int)
    requires
        first_package_entry(bytes, k1),
        first_package_entry(bytes, k2),
    ensures
        k1 == k2,
{
    if k1 < k2 {
        assert(zip_header_of(bytes, k1) matches Some(h) && !is_package_header(h));
    } else if k2 < k1 {
        assert(zip_header_of(bytes, k2) matches Some(h) && !is_package_header(h));
    }
}

/// Whether `entry` is a regular file whose lower-cased name ends in `.pak`.
pub fn qualifies(entry: &ContainerEntry) -> (r: bool)
    ensures
        r == is_package_entry(*entry),
{
    if !entry.is_file {
        return false;
    }
    let lower = lowercase(entry.name.as_str());
    is_package_name(lower.as_str())
}

/// Whether an already lower-cased entry name ends in `.pak`.
pub fn is_package_name(lower: &str) -> (r: bool)
    ensures
        r == ends_with(lower@, package_suffix()),
{
    let n = lower.unicode_len();
    if n < 4 {
        return false;
    }
    let r = lower.get_char(n - 4) == '.' && lower.get_char(n - 3) == 'p' && lower.get_char(n - 2)
        == 'a' && lower.get_char(n - 1) == 'k';
    proof {
        let tail = lower@.subrange(n - 4, n as int);
        if r {
            assert(tail =~= package_suffix());
        } else {
            assert(tail[0] == lower@[n - 4]);
            assert(tail[1] == lower@[n - 3]);
            assert(tail[2] == lower@[n - 2]);
            assert(tail[3] == lower@[n - 1]);
            assert(tail != package_suffix());
        }
    }
    r
}

/// Finds the first package entry of the zip archive in `archive_bytes`, in
/// container order, and returns its decompressed bytes. The result is a
/// function of the bytes alone: the package bytes when the archive has a
/// package entry whose contents read; `MissingPackageEntry` exactly when the
/// archive opens, every header reads and none qualifies; `ContainerCorrupt`
/// when the zip layer fails otherwise. Entries after the package entry are
/// never opened.
pub fn extract_package(archive_bytes: &Vec<u8>) -> (r: Result<Vec<u8>, IndexError>)
    ensures
        match package_of(archive_bytes@) {
            Some(b) => r matches Ok(v) && v@ == b,
            None => r is Err,
        },
        r matches Err(IndexError::MissingPackageEntry) <==> lacks_package_entry(archive_bytes@),
        r is Err ==> r->Err_0 is ContainerCorrupt || r->Err_0 is MissingPackageEntry,
{
    let n = match container_len(archive_bytes) {
        Ok(n) => n,
        Err(e) => {
            proof {
                assert(!exists|k: int| #[trigger] first_package_entry(archive_bytes@, k));
            }
            return Err(IndexError::ContainerCorrupt(describe_zip_error(&e)));
        },
    };
    let ghost bytes = archive_bytes@;
    let mut i: usize = 0;
    while i < n
        invariant
            zip_count_of(bytes) == Some(n as int),
            bytes == archive_bytes@,
            i <= n,
            forall|j: int|
                0 <= j < i ==> (#[trigger] zip_header_of(bytes, j) matches Some(h)
                    && !is_package_header(h)),
        decreases n - i,
    {
        match entry_header(archive_bytes, i) {
            Err(e) => {
                proof {
                    assert forall|k: int| !#[trigger] first_package_entry(bytes, k) by {
                        if first_package_entry(bytes, k) && k >= i {
                            if k > i {
                                assert(zip_header_of(bytes, i as int) matches Some(h)
                                    && !is_package_header(h));
                            }
                        }
                    }
                    assert(!lacks_package_entry(bytes)) by {
                        assert(!(zip_header_of(bytes, i as int) matches Some(h) && !is_package_header(h)));
                    }
                }
                return Err(IndexError::ContainerCorrupt(describe_zip_error(&e)));
            },
            Ok(entry) => {
                if qualifies(&entry) {
                    proof {
                        assert(first_package_entry(bytes, i as int));
                        assert forall|k: int| #[trigger] first_package_entry(bytes, k) implies k
                            == i by {
                            lemma_first_package_entry_unique(bytes, k, i as int);
                        }
                        assert(!lacks_package_entry(bytes)) by {
                            assert(!(zip_header_of(bytes, i as int) matches Some(h)
                                && !is_package_header(h)));
                        }
                    }
                    return match entry_contents(archive_bytes, i) {
                        Ok(data) => Ok(data),
                        Err(e) => Err(IndexError::ContainerCorrupt(describe_zip_error(&e))),
                    };
                }
            },
        }
        i = i + 1;
    }
    proof {
        assert forall|k: int| !#[trigger] first_package_entry(bytes, k) by {
            if first_package_entry(bytes, k) {
                assert(zip_header_of(bytes, k) matches Some(h) && !is_package_header(h));
            }
        }
    }
    Err(IndexError::MissingPackageEntry)
}

/// Law of extraction: the package bytes are a function of the archive bytes,
/// so extracting twice from equal bytes gives equal results, and an archive
/// without a package entry never yields package bytes.
pub proof fn lemma_extract_deterministic(bytes: Seq<u8>, first: Seq<u8>, second: Seq<u8>)
    requires
        package_of(bytes) == Some(first),
        package_of(bytes) == Some(second),
    ensures
        first == second,
        !lacks_package_entry(bytes),
{
    let k = choose|k: int| #[trigger] first_package_entry(bytes, k);
    if lacks_package_entry(bytes) {
        assert(zip_header_of(bytes, k) matches Some(h) && !is_package_header(h));
    }
}

/// The `i`-th record of `index` is the first one that does not normalize.
pub open spec fn first_failure(index: PackageIndex, pre: Seq<char>, i: int) -> bool {
    &&& 0 <= i < index.records@.len()
    &&& normalize_spec(index.mount_point@, index.records@[i]@, pre) is None
    &&& forall|j: int|
        0 <= j < i ==> normalize_spec(index.mount_point@, #[trigger] index.records@[j]@, pre) is Some
}

/// Every record of `index` normalizes.
pub open spec fn all_normalize(index: PackageIndex, pre: Seq<char>) -> bool {
    forall|j: int|
        0 <= j < index.records@.len() ==> normalize_spec(
            index.mount_point@,
            #[trigger] index.records@[j]@,
            pre,
        ) is Some
}

/// `paths` are the normalized records of `index`, in the index's order.
pub open spec fn indexed_as(index: PackageIndex, pre: Seq<char>, paths: Seq<String>) -> bool {
    &&& paths.len() == index.records@.len()
    &&& forall|j: int|
        0 <= j < paths.len() ==> normalize_spec(index.mount_point@, index.records@[j]@, pre) == Some(
            #[trigger] paths[j]@,
        )
}

/// Normalizes every record of a package index against its mount point, in
/// order. A single record that does not normalize fails the whole index.
pub fn index_package(index: &PackageIndex, containment_prefix: &str) -> (r: Result<
    Vec<String>,
    IndexError,
>)
    ensures
        r is Ok <==> all_normalize(*index, containment_prefix@),
        match r {
            Ok(paths) => indexed_as(*index, containment_prefix@, paths@),
            Err(e) => exists|i: int|
                {
                    &&& #[trigger] first_failure(*index, containment_prefix@, i)
                    &&& e matches IndexError::Path(
                        PathError::PrefixMismatch { mount_point: m, record_path: p },
                    )
                    &&& m@ == index.mount_point@
                    &&& p@ == index.records@[i]@
                },
        },
{
    let mut paths: Vec<String> = Vec::new();
    let mut i: usize = 0;
    while i < index.records.len()
        invariant
            i <= index.records@.len(),
            paths@.len() == i,
            forall|j: int|
                0 <= j < i ==> normalize_spec(index.mount_point@, index.records@[j]@, containment_prefix@)
                    == Some(#[trigger] paths@[j]@),
        decreases index.records@.len() - i,
    {
        match normalize(index.mount_point.as_str(), index.records[i].as_str(), containment_prefix) {
            Ok(p) => paths.push(p),
            Err(e) => {
                assert(first_failure(*index, containment_prefix@, i as int)) by {
                    assert forall|j: int| 0 <= j < i implies normalize_spec(
                        index.mount_point@,
                        #[trigger] index.records@[j]@,
                        containment_prefix@,
                    ) is Some by {
                        assert(normalize_spec(index.mount_point@, index.records@[j]@, containment_prefix@)
                            == Some(paths@[j]@));
                    }
                }
                return Err(IndexError::Path(e));
            },
        }
        i = i + 1;
    }
    assert(all_normalize(*index, containment_prefix@)) by {
        assert forall|j: int| 0 <= j < index.records@.len() implies normalize_spec(
            index.mount_point@,
            #[trigger] index.records@[j]@,
            containment_prefix@,
        ) is Some by {
            assert(normalize_spec(index.mount_point@, index.records@[j]@, containment_prefix@) == Some(
                paths@[j]@,
            ));
        }
    }
    Ok(paths)
}

/// Indexes the outcome of reading a package: a reader's rejection becomes
/// `PackageFormatError` with its message, and a parsed index is normalized as
/// `index_package` does.
pub fn index_parsed(parsed: Result<PackageIndex, String>, containment_prefix: &str) -> (r: Result<
    Vec<String>,
    IndexError,
>)
    ensures
        match parsed {
            Err(msg) => r matches Err(IndexError::PackageFormatError(m)) && m == msg,
            Ok(index) => {
                &&& r is Ok <==> all_normalize(index, containment_prefix@)
                &&& r matches Ok(paths) ==> indexed_as(index, containment_prefix@, paths@)
                &&& r matches Err(e) ==> exists|i: int|
                    {
                        &&& #[trigger] first_failure(index, containment_prefix@, i)
                        &&& e matches IndexError::Path(
                            PathError::PrefixMismatch { mount_point: m, record_path: p },
                        )
                        &&& m@ == index.mount_point@
                        &&& p@ == index.records@[i]@
                    }
            },
        },
{
    match parsed {
        Err(msg) => Err(IndexError::PackageFormatError(msg)),
        Ok(index) => index_package(&index, containment_prefix),
    }
}

/// Law of indexing: the result is a function of the package index alone, so
/// indexing the same package twice gives the same ordered paths.
pub proof fn lemma_index_deterministic(
    index: PackageIndex,
    pre: Seq<char>,
    first: Seq<String>,
    second: Seq<String>,
)
    requires
        indexed_as(index, pre, first),
        indexed_as(index, pre, second),
    ensures
        first.map_values(|s: String| s@) == second.map_values(|s: String| s@),
{
    assert forall|j: int| 0 <= j < first.len() implies first[j]@ == second[j]@ by {
        assert(normalize_spec(index.mount_point@, index.records@[j]@, pre) == Some(first[j]@));
        assert(normalize_spec(index.mount_point@, index.records@[j]@, pre) == Some(second[j]@));
    }
    assert(first.map_values(|s: String| s@) =~= second.map_values(|s: String| s@));
}

/// The path entries of file `file_id` for its indexed paths, in order.
pub fn path_entries(file_id: u64, paths: &Vec<String>) -> (r: Vec<PathEntry>)
    ensures
        r@.len() == paths@.len(),
        forall|j: int| 0 <= j < r@.len() ==> entry_of(#[trigger] r@[j], file_id, paths@[j]@),
{
    let mut out: Vec<PathEntry> = Vec::new();
    let mut i: usize = 0;
    while i < paths.len()
        invariant
            i <= paths@.len(),
            out@.len() == i,
            forall|j: int| 0 <= j < i ==> entry_of(#[trigger] out@[j], file_id, paths@[j]@),
        decreases paths@.len() - i,
    {
        out.push(path_entry(file_id, paths[i].as_str()));
        i = i + 1;
    }
    out
}

} // verus!
