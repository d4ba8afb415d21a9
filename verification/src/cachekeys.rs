//! Keys and values of the project cache: which repository an entry is for,
//! what it is keyed by, and the text form of those keys.

use vstd::prelude::*;
use crate::keyed::KeyedMap;
use crate::outlining::PatternSet;
use crate::text::{decimal_string, decimal_text, optional_view};

verus! {

/// The lower-case hexadecimal digit of `d`.
pub open spec fn hex_digit(d: int) -> char {
    if d < 10 {
        crate::text::digit_char(d)
    } else if d == 10 {
        'a'
    } else if d == 11 {
        'b'
    } else if d == 12 {
        'c'
    } else if d == 13 {
        'd'
    } else if d == 14 {
        'e'
    } else {
        'f'
    }
}

/// The bytes written in lower-case hexadecimal, two digits each.
pub open spec fn hex_text(bytes: Seq<u8>) -> Seq<char>
    decreases bytes.len(),
{
    if bytes.len() == 0 {
        Seq::empty()
    } else {
        hex_text(bytes.drop_last()) + seq![
            hex_digit(bytes.last() as int / 16),
            hex_digit(bytes.last() as int % 16),
        ]
    }
}

/// Calls `hex::encode`, which writes each byte as two lower-case
/// hexadecimal digits, high nibble first. Claimed: the result is
/// `hex_text(data)`.
#[verifier::external_body]
pub(crate) fn hex_encode(data: &[u8]) -> (res: String)
    ensures
        res@ == hex_text(data@),
{
    hex::encode(data)
}

/// The error of `url::Url::parse`.
#[verifier::external_type_specification]
#[verifier::external_body]
pub struct ExUrlParseError(url::ParseError);

/// The scheme, host and path of the URL that a text parses to, if any.
pub uninterp spec fn url_parts(text: Seq<char>) -> Option<(Seq<char>, Option<Seq<char>>, Seq<char>)>;

/// Calls `url::Url::parse` and reads the scheme, host and path of the
/// result (`Url::scheme`, `Url::host_str`, `Url::path`). Claimed: a parse
/// error exactly where `url_parts` has none, and otherwise its parts; and
/// that the path is no longer than three characters for each byte of the
/// text, and one more (the parser percent-encodes each byte of the path it
/// reads into at most three ASCII characters, drops or keeps the
/// separators, and may add a leading `/`).
#[verifier::external_body]
pub(crate) fn parse_url(text: &str) -> (res: Result<(String, Option<String>, String), url::ParseError>)
    ensures
        match res {
            Ok((scheme, host, path)) => url_parts(text@) == Some(
                (scheme@, optional_view(host), path@),
            ) && path@.len() <= 3 * vstd::utf8::encode_utf8(text@).len() + 1,
            Err(_) => url_parts(text@) is None,
        },
{
    match url::Url::parse(text) {
        Ok(u) => Ok((u.scheme().to_string(), u.host_str().map(|h| h.to_string()), u.path().to_string())),
        Err(e) => Err(e),
    }
}

/// The repository that cached content belongs to.
#[derive(Debug, Clone, PartialEq, Eq, PartialOrd, Ord, Hash)]
pub struct RepoIdentifier {
    pub host: String,
    pub name: String,
}

/// The host of a repository: that of its URL, or `localhost` for a file
/// URL without one, or `unknown`.
pub open spec fn identifier_host(scheme: Seq<char>, host: Option<Seq<char>>) -> Seq<char> {
    match host {
        Some(h) => h,
        None => if scheme == "file"@ {
            "localhost"@
        } else {
            "unknown"@
        },
    }
}

/// The name of a repository: the path of its URL without a leading `/` and
/// without a trailing `.git`.
pub open spec fn identifier_name(path: Seq<char>) -> Seq<char> {
    let p = if path.len() > 0 && path[0] == '/' {
        path.drop_first()
    } else {
        path
    };
    if p.len() >= 4 && p.subrange(p.len() - 4, p.len() as int) == ".git"@ {
        p.subrange(0, p.len() - 4)
    } else {
        p
    }
}

/// Why a repository could not be identified.
#[derive(Debug)]
pub enum RepoIdentifierError {
    /// The URL does not parse.
    InvalidUrl(url::ParseError),
}

impl RepoIdentifier {
    /// The repository of the URL with the given scheme, host and path.
    pub fn from_url_parts(scheme: &str, host: Option<&str>, path: &str) -> (res: RepoIdentifier)
        ensures
            res.host@ == identifier_host(
                scheme@,
                match host {
                    Some(h) => Some(h@),
                    None => None,
                },
            ),
            res.name@ == identifier_name(path@),
    {
        let host = match host {
            Some(h) => String::from_str(h),
            None => {
                proof {
                    reveal_strlit("file");
                }
                if crate::text::str_equal(scheme, "file") {
                    String::from_str("localhost")
                } else {
                    String::from_str("unknown")
                }
            },
        };
        let n = path.unicode_len();
        let trimmed: &str = if n > 0 && path.get_char(0) == '/' {
            path.substring_char(1, n)
        } else {
            path
        };
        assert(trimmed@ == (if path@.len() > 0 && path@[0] == '/' {
            path@.drop_first()
        } else {
            path@
        }));
        let m = trimmed.unicode_len();
        proof {
            reveal_strlit(".git");
        }
        let name = if m >= 4 && crate::text::str_equal(trimmed.substring_char(m - 4, m), ".git") {
            String::from_str(trimmed.substring_char(0, m - 4))
        } else {
            String::from_str(trimmed)
        };
        RepoIdentifier { host, name }
    }

    /// The repository of the URL `url`.
    pub fn try_from(url: &str) -> (res: Result<RepoIdentifier, RepoIdentifierError>)
        ensures
            match url_parts(url@) {
                None => res is Err,
                Some((scheme, host, path)) => res matches Ok(r) && r.host@ == identifier_host(
                    scheme,
                    host,
                ) && r.name@ == identifier_name(path),
            },
    {
        match parse_url(url) {
            Ok((scheme, host, path)) => {
                let h: Option<&str> = match &host {
                    Some(s) => Some(s.as_str()),
                    None => None,
                };
                Ok(Self::from_url_parts(scheme.as_str(), h, path.as_str()))
            },
            Err(e) => Err(RepoIdentifierError::InvalidUrl(e)),
        }
    }

    /// The text form: host, `/`, name.
    pub fn to_string(&self) -> (res: String)
        ensures
            res@ == self.host@ + "/"@ + self.name@,
    {
        String::from_str(self.host.as_str()).concat("/").concat(self.name.as_str())
    }
}

/// What a cache entry is keyed by.
#[derive(Debug, Clone, PartialEq, Eq, PartialOrd, Ord, Hash)]
pub enum Key {
    CommitToBuildGraphHash { commit_id: Vec<u8> },
    MandatoryProjectPatternSet { build_graph_hash: Vec<u8> },
    OptionalProjectPatternSet { build_graph_hash: Vec<u8>, project_name: String },
    ImportReceipt { build_graph_hash: Vec<u8> },
}

/// The text form of a key.
pub open spec fn key_text(k: Key) -> Seq<char> {
    match k {
        Key::CommitToBuildGraphHash { commit_id } => "commit-to-build-graph-hash:commit="@
            + hex_text(commit_id@),
        Key::MandatoryProjectPatternSet { build_graph_hash } =>
            "mandatory-project-pattern-set:build-graph-hash="@ + hex_text(build_graph_hash@),
        Key::OptionalProjectPatternSet { build_graph_hash, project_name } =>
            "optional-project-pattern-set:build-graph-hash="@ + hex_text(build_graph_hash@)
            + ":project="@ + project_name@,
        Key::ImportReceipt { build_graph_hash } => "import-reciept:build-graph-hash="@ + hex_text(
            build_graph_hash@,
        ),
    }
}

impl Key {
    /// The text form of the key.
    pub fn to_string(&self) -> (res: String)
        ensures
            res@ == key_text(*self),
    {
        match self {
            Key::CommitToBuildGraphHash { commit_id } => {
                let hex = hex_encode(commit_id.as_slice());
                String::from_str("commit-to-build-graph-hash:commit=").concat(hex.as_str())
            },
            Key::MandatoryProjectPatternSet { build_graph_hash } => {
                let hex = hex_encode(build_graph_hash.as_slice());
                String::from_str("mandatory-project-pattern-set:build-graph-hash=").concat(
                    hex.as_str(),
                )
            },
            Key::OptionalProjectPatternSet { build_graph_hash, project_name } => {
                let hex = hex_encode(build_graph_hash.as_slice());
                String::from_str("optional-project-pattern-set:build-graph-hash=").concat(
                    hex.as_str(),
                ).concat(":project=").concat(project_name.as_str())
            },
            Key::ImportReceipt { build_graph_hash } => {
                let hex = hex_encode(build_graph_hash.as_slice());
                String::from_str("import-reciept:build-graph-hash=").concat(hex.as_str())
            },
        }
    }
}

/// What a cache entry holds.
#[derive(Debug, Clone)]
pub enum Value {
    BuildGraphHash { build_graph_hash: Vec<u8> },
    MandatoryProjectPatternSet(PatternSet),
    OptionalProjectPatternSet(PatternSet),
    ImportReceiptIota,
}

/// The version of the cache's key layout.
pub const PROJECT_CACHE_VERSION: usize = 1;

/// A key together with the repository it belongs to.
#[derive(Debug, Clone, PartialEq, Eq, PartialOrd, Ord)]
pub struct NamespacedKey {
    pub repository: RepoIdentifier,
    pub underlying: Key,
    pub version: usize,
}

impl NamespacedKey {
    /// The text form: repository, `;`, key, `;V` and the cache version.
    pub fn to_key_string(&self) -> (res: String)
        ensures
            res@ == self.repository.host@ + "/"@ + self.repository.name@ + ";"@ + key_text(
                self.underlying,
            ) + ";V"@ + decimal_text(PROJECT_CACHE_VERSION as nat),
    {
        let repo = self.repository.to_string();
        let key = self.underlying.to_string();
        let version = decimal_string(PROJECT_CACHE_VERSION);
        repo.concat(";").concat(key.as_str()).concat(";V").concat(version.as_str())
    }
}

/// A shard of exported cache entries.
#[derive(Debug, Clone)]
pub struct Export {
    pub shard_index: usize,
    pub shard_count: usize,
    pub items: KeyedMap<Value>,
}

/// How many shards an export was made of, and the entries every client
/// needs.
#[derive(Debug, Clone)]
pub struct ExportManifest {
    pub shard_count: usize,
    pub mandatory_items: KeyedMap<Value>,
}


/// Why a local cache backend cannot use an endpoint.
#[derive(Debug, Clone, Copy, PartialEq, Eq, Structural)]
pub enum DatabaseCacheBackendError {
    /// The endpoint's scheme is not `file`.
    InappropriateScheme,
}

impl DatabaseCacheBackendError {
    /// The message of the error.
    pub fn to_string(&self) -> (res: String)
        ensures
            res@ == "Local cache backend requires a 'file' scheme in the endpoint URL"@,
    {
        String::from_str("Local cache backend requires a 'file' scheme in the endpoint URL")
    }
}

/// Checks that a local cache backend can use an endpoint of the URL scheme
/// `scheme`: it must be `file`, in any case.
pub fn check_local_endpoint_scheme(scheme: &str) -> (res: Result<(), DatabaseCacheBackendError>)
    ensures
        res is Ok <==> crate::text::eq_ignore_ascii_case(scheme@, "file"@),
        res is Err ==> res == Err::<(), DatabaseCacheBackendError>(
            DatabaseCacheBackendError::InappropriateScheme,
        ),
{
    if crate::text::equals_ignore_ascii_case(scheme, "file") {
        Ok(())
    } else {
        Err(DatabaseCacheBackendError::InappropriateScheme)
    }
}


fn copy_bytes(v: &Vec<u8>) -> (res: Vec<u8>)
    ensures
        res@ == v@,
{
    let mut out: Vec<u8> = Vec::new();
    let mut i: usize = 0;
    while i < v.len()
        invariant
            i <= v@.len(),
            out@ == v@.subrange(0, i as int),
        decreases v@.len() - i,
    {
        out.push(v[i]);
        assert(out@ =~= v@.subrange(0, i + 1));
        i = i + 1;
    }
    assert(out@ =~= v@);
    out
}

/// The key that marks the cache entries of a build graph as imported.
pub fn import_receipt_key(repository: &RepoIdentifier, build_graph_hash: &Vec<u8>) -> (res: NamespacedKey)
    ensures
        res.repository.host@ == repository.host@,
        res.repository.name@ == repository.name@,
        res.underlying matches Key::ImportReceipt { build_graph_hash: h } && h@ == build_graph_hash@,
        res.version == PROJECT_CACHE_VERSION,
{
    NamespacedKey {
        repository: RepoIdentifier { host: repository.host.clone(), name: repository.name.clone() },
        underlying: Key::ImportReceipt { build_graph_hash: copy_bytes(build_graph_hash) },
        version: PROJECT_CACHE_VERSION,
    }
}

/// The path, below an endpoint's path, of the manifest of the exports of a
/// build graph.
pub open spec fn manifest_path_text(endpoint_path: Seq<char>, build_graph_hash: Seq<u8>) -> Seq<char> {
    endpoint_path + "/"@ + hex_text(build_graph_hash) + ".manifest_v"@ + decimal_text(
        PROJECT_CACHE_VERSION as nat,
    ) + ".json"@
}

/// The path, below an endpoint's path, of one shard of the exports of a
/// build graph; shards are numbered from 1.
pub open spec fn export_path_text(
    endpoint_path: Seq<char>,
    build_graph_hash: Seq<u8>,
    shard_index: nat,
    shard_count: nat,
) -> Seq<char> {
    endpoint_path + "/"@ + hex_text(build_graph_hash) + "_"@ + decimal_text(shard_index + 1) + "_"@
        + decimal_text(shard_count) + ".export_v"@ + decimal_text(PROJECT_CACHE_VERSION as nat)
        + ".json"@
}

/// The path of the manifest of a build graph's exports below the path of an
/// endpoint.
pub fn manifest_path(endpoint_path: &str, build_graph_hash: &Vec<u8>) -> (res: String)
    ensures
        res@ == manifest_path_text(endpoint_path@, build_graph_hash@),
{
    let hex = hex_encode(build_graph_hash.as_slice());
    let version = decimal_string(PROJECT_CACHE_VERSION);
    String::from_str(endpoint_path).concat("/").concat(hex.as_str()).concat(".manifest_v").concat(
        version.as_str(),
    ).concat(".json")
}

/// The path of one shard of a build graph's exports below the path of an
/// endpoint.
pub fn export_path(endpoint_path: &str, build_graph_hash: &Vec<u8>, shard_index: usize, shard_count: usize) -> (res:
    String)
    requires
        shard_index < usize::MAX,
    ensures
        res@ == export_path_text(
            endpoint_path@,
            build_graph_hash@,
            shard_index as nat,
            shard_count as nat,
        ),
{
    let hex = hex_encode(build_graph_hash.as_slice());
    let number = decimal_string(shard_index + 1);
    let count = decimal_string(shard_count);
    let version = decimal_string(PROJECT_CACHE_VERSION);
    String::from_str(endpoint_path).concat("/").concat(hex.as_str()).concat("_").concat(
        number.as_str(),
    ).concat("_").concat(count.as_str()).concat(".export_v").concat(version.as_str()).concat(".json")
}

/// The URL of an endpoint with its path replaced.
pub uninterp spec fn url_with_path(endpoint: Seq<char>, path: Seq<char>) -> Seq<char>;

/// The most characters, or bytes, of an endpoint or a build graph hash
/// that URLs of the project cache are built from.
pub const ENDPOINT_TEXT_LIMIT: usize = 65536;

/// A text takes at most four bytes a character in UTF-8.
pub proof fn lemma_byte_len_bound(s: Seq<char>)
    ensures
        vstd::utf8::encode_utf8(s).len() <= 4 * s.len(),
    decreases s.len(),
{
    if s.len() > 0 {
        lemma_byte_len_bound(s.drop_first());
    }
}

/// Hex text has two digits a byte.
pub proof fn lemma_hex_text_len(bytes: Seq<u8>)
    ensures
        hex_text(bytes).len() == 2 * bytes.len(),
    decreases bytes.len(),
{
    if bytes.len() > 0 {
        lemma_hex_text_len(bytes.drop_last());
    }
}

/// The most characters that an endpoint and a path given to `set_url_path`
/// may have together.
pub const URL_TEXT_LIMIT: usize = 1048576;

/// Calls `url::Url::parse` on the endpoint, `Url::set_path` with the path,
/// and gives back the text of the result. Claimed: a parse error exactly
/// where `url_parts` has none, and otherwise `url_with_path` of the two.
/// `set_path` panics where the URL with its new path would exceed
/// `u32::MAX` bytes; the limit on the two texts (at most four bytes a
/// character) keeps the result far below that, even where parsing and
/// percent-encoding lengthen them many times over.
#[verifier::external_body]
pub(crate) fn set_url_path(endpoint: &str, path: &str) -> (res: Result<String, url::ParseError>)
    requires
        endpoint@.len() + path@.len() <= URL_TEXT_LIMIT,
    ensures
        match res {
            Ok(u) => url_parts(endpoint@) is Some && u@ == url_with_path(endpoint@, path@),
            Err(_) => url_parts(endpoint@) is None,
        },
{
    let mut url = url::Url::parse(endpoint)?;
    url.set_path(path);
    Ok(url.to_string())
}

/// The URL of the manifest of a build graph's exports at an endpoint.
pub fn manifest_url(endpoint: &str, build_graph_hash: &Vec<u8>) -> (res: Result<String, url::ParseError>)
    requires
        endpoint@.len() <= ENDPOINT_TEXT_LIMIT,
        build_graph_hash@.len() <= ENDPOINT_TEXT_LIMIT,
    ensures
        match url_parts(endpoint@) {
            Some((_, _, path)) => res matches Ok(u) && u@ == url_with_path(
                endpoint@,
                manifest_path_text(path, build_graph_hash@),
            ),
            None => res is Err,
        },
{
    let (_scheme, _host, path) = parse_url(endpoint)?;
    let p = manifest_path(path.as_str(), build_graph_hash);
    proof {
        lemma_byte_len_bound(endpoint@);
        lemma_hex_text_len(build_graph_hash@);
        reveal_strlit("/");
        reveal_strlit(".manifest_v");
        reveal_strlit(".json");
        crate::text::lemma_decimal_text_len(PROJECT_CACHE_VERSION as nat);
    }
    set_url_path(endpoint, p.as_str())
}

/// The URL of one shard of a build graph's exports at an endpoint.
pub fn export_url(endpoint: &str, build_graph_hash: &Vec<u8>, shard_index: usize, shard_count: usize) -> (res:
    Result<String, url::ParseError>)
    requires
        shard_index < usize::MAX,
        endpoint@.len() <= ENDPOINT_TEXT_LIMIT,
        build_graph_hash@.len() <= ENDPOINT_TEXT_LIMIT,
    ensures
        match url_parts(endpoint@) {
            Some((_, _, path)) => res matches Ok(u) && u@ == url_with_path(
                endpoint@,
                export_path_text(path, build_graph_hash@, shard_index as nat, shard_count as nat),
            ),
            None => res is Err,
        },
{
    let (_scheme, _host, path) = parse_url(endpoint)?;
    let p = export_path(path.as_str(), build_graph_hash, shard_index, shard_count);
    proof {
        lemma_byte_len_bound(endpoint@);
        lemma_hex_text_len(build_graph_hash@);
        reveal_strlit("/");
        reveal_strlit("_");
        reveal_strlit(".export_v");
        reveal_strlit(".json");
        crate::text::lemma_decimal_text_len(PROJECT_CACHE_VERSION as nat);
        crate::text::lemma_decimal_text_len((shard_index + 1) as nat);
        crate::text::lemma_decimal_text_len(shard_count as nat);
    }
    set_url_path(endpoint, p.as_str())
}

/// The shard of `names` that the `index`-th of `count` generators works
/// on: the names cut, in order, into runs of `len / count`, the last run
/// taking what is left; none where there is no such run.
pub open spec fn shard_of<T>(names: Seq<T>, index: int, count: int) -> Option<Seq<T>> {
    let size = names.len() as int / count;
    if index * size < names.len() {
        Some(
            names.subrange(
                index * size,
                if index * size + size < names.len() {
                    index * size + size
                } else {
                    names.len() as int
                },
            ),
        )
    } else {
        None
    }
}

/// The shards of the indices below `k`, one after the other.
pub open spec fn shards_before<T>(names: Seq<T>, count: int, k: nat) -> Seq<T>
    decreases k,
{
    if k == 0 {
        Seq::empty()
    } else {
        shards_before(names, count, (k - 1) as nat) + match shard_of(names, k - 1, count) {
            Some(s) => s,
            None => Seq::empty(),
        }
    }
}

proof fn lemma_shards_before<T>(names: Seq<T>, count: int, k: nat)
    requires
        0 < count <= names.len(),
    ensures
        shards_before(names, count, k) == names.subrange(
            0,
            if k * (names.len() as int / count) < names.len() {
                k * (names.len() as int / count)
            } else {
                names.len() as int
            },
        ),
    decreases k,
{
    let len = names.len() as int;
    let size = len / count;
    assert(size >= 1) by (nonlinear_arith)
        requires
            0 < count <= len,
            size == len / count,
    ;
    if k == 0 {
        assert(k * size == 0) by (nonlinear_arith)
            requires
                k == 0,
        ;
        assert(names.subrange(0, 0) =~= Seq::<T>::empty());
    } else {
        let j = (k - 1) as nat;
        lemma_shards_before(names, count, j);
        assert(k * size == j * size + size) by (nonlinear_arith)
            requires
                k == j + 1,
        ;
        assert(shards_before(names, count, k) == shards_before(names, count, j) + match shard_of(
            names,
            j as int,
            count,
        ) {
            Some(s) => s,
            None => Seq::empty(),
        });
        if j * size < len {
            let end = if j * size + size < len {
                j * size + size
            } else {
                len
            };
            assert(shard_of(names, j as int, count) == Some(names.subrange(j * size, end)));
            assert(shards_before(names, count, j) == names.subrange(0, j * size));
            assert(names.subrange(0, j * size) + names.subrange(j * size, end) =~= names.subrange(0, end));
        } else {
            assert(shard_of(names, j as int, count) is None);
            assert(k * size >= len);
        }
    }
}

/// The shards, over all the indices they exist for, cut the names into
/// consecutive runs: together, in the order of their indices, they are the
/// names, each in exactly one shard. (Indices from `count` on can be
/// needed: seven names over three generators make runs of two, and the
/// seventh name is in the shard of index 3.)
pub proof fn lemma_shards_partition<T>(names: Seq<T>, count: int)
    requires
        0 < count <= names.len(),
    ensures
        shards_before(names, count, names.len()) == names,
{
    let len = names.len() as int;
    let size = len / count;
    assert(size >= 1) by (nonlinear_arith)
        requires
            0 < count <= len,
            size == len / count,
    ;
    assert(len * size >= len) by (nonlinear_arith)
        requires
            size >= 1,
            len >= 0,
    ;
    lemma_shards_before(names, count, names.len());
    assert(names.subrange(0, len) =~= names);
}

/// The project names that one of `count` cache generators works on (see
/// `shard_of`).
pub fn project_shard(names: &Vec<String>, index: usize, count: usize) -> (res: Option<Vec<String>>)
    requires
        0 < count <= names@.len(),
    ensures
        match shard_of(names@, index as int, count as int) {
            Some(s) => res matches Some(v) && v@ == s,
            None => res is None,
        },
{
    let len = names.len();
    let size = len / count;
    proof {
        assert(size >= 1) by (nonlinear_arith)
            requires
                0 < count <= len,
                size == len / count,
        ;
    }
    let whole = len / size;
    let chunks = if len % size != 0 {
        proof {
            assert(whole < len) by (nonlinear_arith)
                requires
                    size >= 1,
                    whole == len / size,
                    len % size != 0,
            ;
        }
        whole + 1
    } else {
        whole
    };
    proof {
        assert((index as int) * size < len <==> index < chunks) by (nonlinear_arith)
            requires
                size >= 1,
                whole == len / size,
                chunks == (if len % size != 0 {
                    whole + 1
                } else {
                    whole as int
                }),
        ;
    }
    if index >= chunks {
        return None;
    }
    proof {
        assert((index as int) * size < len) by (nonlinear_arith)
            requires
                size >= 1,
                index < chunks,
                whole == len / size,
                chunks == (if len % size != 0 {
                    whole + 1
                } else {
                    whole as int
                }),
        ;
    }
    let start = index * size;
    let end = if len - start > size {
        start + size
    } else {
        len
    };
    let mut v: Vec<String> = Vec::new();
    let mut k = start;
    while k < end
        invariant
            start <= k <= end <= len,
            len == names@.len(),
            v@ == names@.subrange(start as int, k as int),
        decreases end - k,
    {
        v.push(names[k].clone());
        assert(v@ =~= names@.subrange(start as int, k + 1));
        k = k + 1;
    }
    Some(v)
}

} // verus!
