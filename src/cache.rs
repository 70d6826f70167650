//! Records of the on-disk cache.
//!
//! The cache holds plain copies of the symbol tree (names, ranges as offset
//! pairs, flags, model metadata) and, for the whole workspace, the size and
//! modification time of each file. A cache is only used when it was written
//! by the same cache format, the same server version and for the same root path.
use vstd::prelude::*;
use vstd::string::StringSliceAdditionalSpecFns;
use std::collections::HashMap;

verus! {

/// Version of the cache format.
pub const CACHE_VERSION: u32 = 3;

/// A byte range as a pair of offsets.
#[derive(Clone, Copy, PartialEq, Eq, Structural)]
pub struct CachedTextRange {
    pub start: u32,
    pub end: u32,
}

impl Default for CachedTextRange {
    fn default() -> (r: Self)
        ensures
            r.start == 0 && r.end == 0,
    {
        CachedTextRange { start: 0, end: 0 }
    }
}

/// Kinds of cached symbols.
pub enum CachedSymbolType {
    File,
    Class,
    Function,
    Variable,
}

/// How an argument is passed.
#[allow(non_camel_case_types)]
#[derive(Clone, Copy, PartialEq, Eq, Structural)]
pub enum ArgumentType {
    POS_ONLY,
    ARG,
    VARARG,
    KWORD_ONLY,
    KWARG,
}

/// The name an argument kind is stored under.
pub open spec fn argument_type_name(t: ArgumentType) -> Seq<char> {
    match t {
        ArgumentType::POS_ONLY => seq!['P', 'O', 'S', '_', 'O', 'N', 'L', 'Y'],
        ArgumentType::ARG => seq!['A', 'R', 'G'],
        ArgumentType::VARARG => seq!['V', 'A', 'R', 'A', 'R', 'G'],
        ArgumentType::KWORD_ONLY => seq!['K', 'W', 'O', 'R', 'D', '_', 'O', 'N', 'L', 'Y'],
        ArgumentType::KWARG => seq!['K', 'W', 'A', 'R', 'G'],
    }
}

/// The argument kind stored under a name; an unknown name reads as `ARG`.
pub open spec fn argument_type_of(s: Seq<char>) -> ArgumentType {
    if s == argument_type_name(ArgumentType::POS_ONLY) {
        ArgumentType::POS_ONLY
    } else if s == argument_type_name(ArgumentType::VARARG) {
        ArgumentType::VARARG
    } else if s == argument_type_name(ArgumentType::KWORD_ONLY) {
        ArgumentType::KWORD_ONLY
    } else if s == argument_type_name(ArgumentType::KWARG) {
        ArgumentType::KWARG
    } else {
        ArgumentType::ARG
    }
}

/// Whether `s` holds exactly the characters `p`.
fn str_is(s: &str, p: &Vec<char>) -> (r: bool)
    ensures
        r == (s@ == p@),
{
    let len = s.unicode_len();
    if len != p.len() {
        return false;
    }
    let mut i: usize = 0;
    while i < len
        invariant
            len == s@.len(),
            len == p@.len(),
            i <= len,
            s@.subrange(0, i as int) == p@.subrange(0, i as int),
        decreases len - i,
    {
        if s.get_char(i) != p[i] {
            return false;
        }
        assert(s@.subrange(0, i + 1) =~= s@.subrange(0, i as int).push(s@[i as int]));
        assert(p@.subrange(0, i + 1) =~= p@.subrange(0, i as int).push(p@[i as int]));
        i = i + 1;
    }
    assert(s@ =~= s@.subrange(0, i as int));
    assert(p@ =~= p@.subrange(0, i as int));
    true
}

/// The name an argument kind is stored under.
pub fn argument_type_str(t: ArgumentType) -> (r: &'static str)
    ensures
        r@ == argument_type_name(t),
{
    match t {
        ArgumentType::POS_ONLY => {
            proof { reveal_strlit("POS_ONLY"); }
            "POS_ONLY"
        },
        ArgumentType::ARG => {
            proof { reveal_strlit("ARG"); }
            "ARG"
        },
        ArgumentType::VARARG => {
            proof { reveal_strlit("VARARG"); }
            "VARARG"
        },
        ArgumentType::KWORD_ONLY => {
            proof { reveal_strlit("KWORD_ONLY"); }
            "KWORD_ONLY"
        },
        ArgumentType::KWARG => {
            proof { reveal_strlit("KWARG"); }
            "KWARG"
        },
    }
}

/// Reads an argument kind from its stored name.
pub fn parse_arg_type(s: &str) -> (r: ArgumentType)
    ensures
        r == argument_type_of(s@),
{
    if str_is(s, &vec!['P', 'O', 'S', '_', 'O', 'N', 'L', 'Y']) {
        ArgumentType::POS_ONLY
    } else if str_is(s, &vec!['V', 'A', 'R', 'A', 'R', 'G']) {
        ArgumentType::VARARG
    } else if str_is(s, &vec!['K', 'W', 'O', 'R', 'D', '_', 'O', 'N', 'L', 'Y']) {
        ArgumentType::KWORD_ONLY
    } else if str_is(s, &vec!['K', 'W', 'A', 'R', 'G']) {
        ArgumentType::KWARG
    } else {
        ArgumentType::ARG
    }
}

/// A cached function argument.
pub struct CachedArgument {
    pub name: String,
    pub arg_type: String,
    pub has_default: bool,
}

impl CachedArgument {
    /// The record of an argument.
    pub fn from_arg(name: &str, arg_type: ArgumentType, has_default: bool) -> (r: Self)
        ensures
            r.name@ == name@,
            r.arg_type@ == argument_type_name(arg_type),
            r.has_default == has_default,
    {
        CachedArgument { name: name.to_owned(), arg_type: argument_type_str(arg_type).to_owned(), has_default }
    }

    /// The argument kind of this record.
    pub fn to_argument_type(&self) -> (r: ArgumentType)
        ensures
            r == argument_type_of(self.arg_type@),
    {
        parse_arg_type(self.arg_type.as_str())
    }
}

/// Reading back the record of an argument gives its name, kind and default flag.
pub proof fn lemma_argument_round_trip(t: ArgumentType)
    ensures
        argument_type_of(argument_type_name(t)) == t,
{
    let n = argument_type_name(t);
    assert(argument_type_name(ArgumentType::POS_ONLY).len() == 8);
    assert(argument_type_name(ArgumentType::VARARG).len() == 6);
    assert(argument_type_name(ArgumentType::KWORD_ONLY).len() == 10);
    assert(argument_type_name(ArgumentType::KWARG).len() == 5);
    assert(argument_type_name(ArgumentType::ARG).len() == 3);
    if t == ArgumentType::KWARG {
        assert(n[1] != argument_type_name(ArgumentType::VARARG)[1]);
    }
}

/// A cached variable.
pub struct CachedVariable {
    pub name: String,
    pub range: CachedTextRange,
    pub is_import_variable: bool,
    pub is_parameter: bool,
    pub doc_string: Option<String>,
}

/// A cached function with its arguments and nested symbols.
pub struct CachedFunction {
    pub name: String,
    pub range: CachedTextRange,
    pub body_start: u32,
    pub is_static: bool,
    pub is_property: bool,
    pub is_class_method: bool,
    pub doc_string: Option<String>,
    pub args: Vec<CachedArgument>,
    pub symbols: Vec<CachedSymbol>,
}

/// A cached class with its model metadata and nested symbols.
pub struct CachedClass {
    pub name: String,
    pub range: CachedTextRange,
    pub body_start: u32,
    pub doc_string: Option<String>,
    pub base_names: Vec<String>,
    pub model: Option<CachedModel>,
    pub symbols: Vec<CachedSymbol>,
}

/// A cached file and its top-level symbols.
pub struct CachedFile {
    pub name: String,
    pub path: String,
    pub processed_text_hash: u64,
    pub symbols: Vec<CachedSymbol>,
}

/// A cached symbol below a file.
pub enum CachedSymbol {
    Variable(CachedVariable),
    Function(CachedFunction),
    Class(CachedClass),
}

/// Size and modification time of a file, to tell cheaply whether it changed.
#[derive(Clone, Copy, PartialEq, Eq, Structural)]
pub struct FileMetadata {
    pub mtime: u64,
    pub size: u64,
}

/// A file is unchanged when its current metadata can be read and matches the cached one.
pub fn is_file_unchanged(current: Option<FileMetadata>, cached: &FileMetadata) -> (r: bool)
    ensures
        r == (current == Some(*cached)),
{
    match current {
        Some(c) => c.mtime == cached.mtime && c.size == cached.size,
        None => false,
    }
}

/// Header and file table of the workspace cache.
pub struct CacheData {
    pub version: u32,
    pub server_version: String,
    pub odoo_path: String,
    pub files: HashMap<String, FileMetadata>,
}

impl CacheData {
    /// An empty cache for a root path, written by the given server version.
    pub fn new(odoo_path: &str, server_version: &str) -> (r: Self)
        ensures
            r.version == CACHE_VERSION,
            r.server_version@ == server_version@,
            r.odoo_path@ == odoo_path@,
            r.files@.len() == 0,
    {
        CacheData {
            version: CACHE_VERSION,
            server_version: server_version.to_owned(),
            odoo_path: odoo_path.to_owned(),
            files: HashMap::new(),
        }
    }

    /// Whether this cache may be used: same format, same server version,
    /// same root path. Any mismatch is a plain cache miss.
    pub fn is_valid_for(&self, odoo_path: &str, server_version: &str) -> (r: bool)
        ensures
            r == (self.version == CACHE_VERSION && self.server_version@ == server_version@
                && self.odoo_path@ == odoo_path@),
    {
        self.version == CACHE_VERSION && self.server_version == server_version.to_owned()
            && self.odoo_path == odoo_path.to_owned()
    }
}

/// A cached model field.
#[derive(Clone)]
pub struct CachedField {
    pub name: String,
    pub field_type: String,
    pub string: Option<String>,
    pub required: bool,
    pub readonly: bool,
    pub compute: Option<String>,
    pub inverse: Option<String>,
    pub related: Option<String>,
    pub default: Option<String>,
    pub store: bool,
    pub help: Option<String>,
    pub translate: bool,
}

/// Cached metadata of a model class.
#[derive(Clone)]
pub struct CachedModel {
    pub name: String,
    pub description: String,
    pub inherit: Vec<String>,
    pub inherits: Vec<(String, String)>,
    pub fields: Vec<CachedField>,
    pub is_abstract: bool,
    pub transient: bool,
    pub table: String,
    pub rec_name: Option<String>,
    pub order: String,
    pub auto: bool,
    pub log_access: bool,
    pub parent_name: String,
    pub active_name: Option<String>,
}

/// A cached module: its manifest data, models and files.
pub struct CachedModule {
    pub name: String,
    pub path: String,
    pub dir_name: String,
    pub module_name: String,
    pub depends: Vec<String>,
    pub all_depends: Vec<String>,
    pub data: Vec<String>,
    pub file_hashes: HashMap<String, u64>,
    pub models: Vec<CachedModel>,
    pub xml_ids: HashMap<String, Vec<String>>,
    pub is_external: bool,
    pub processed_text_hash: u64,
    pub files: Vec<CachedFile>,
}

/// Where the workspace cache lives.
pub struct CacheManager {
    pub cache_dir: String,
    pub cache_path: String,
}

/// Where the per-module caches live.
pub struct ModuleCacheManager {
    pub cache_dir: String,
}

/// The MD5 digest of some bytes.
pub uninterp spec fn md5_of(data: Seq<u8>) -> Seq<u8>;

/// Relies on md5::compute: the 16-byte digest of the data, which depends on
/// the data alone.
#[verifier::external_body]
fn md5_digest(data: &[u8]) -> (r: [u8; 16])
    ensures
        r@ == md5_of(data@),
{
    md5::compute(data).0
}

/// Relies on String::from_utf8: ASCII bytes are valid UTF-8, and the string
/// holds one character per byte.
#[verifier::external_body]
fn ascii_string(b: Vec<u8>) -> (r: String)
    requires
        forall|i: int| 0 <= i < b@.len() ==> b@[i] < 128,
    ensures
        r@ == b@.map_values(|x: u8| x as char),
{
    String::from_utf8(b).unwrap()
}

/// Lower-case hex digit of a value below 16.
pub open spec fn hex_digit(n: u8) -> u8 {
    if n < 10 {
        (48 + n) as u8
    } else {
        (87 + n) as u8
    }
}

/// Two lower-case hex digits per byte.
pub open spec fn hex_of(b: Seq<u8>) -> Seq<u8>
    decreases b.len(),
{
    if b.len() == 0 {
        seq![]
    } else {
        hex_of(b.drop_last()) + seq![hex_digit(b.last() / 16), hex_digit(b.last() % 16)]
    }
}

/// The key a module's cache file is named after: root path, `:`, module name.
pub open spec fn module_cache_key(module_name: &str, odoo_path: &str) -> Seq<u8> {
    odoo_path.spec_bytes() + seq![58u8] + module_name.spec_bytes()
}

impl ModuleCacheManager {
    /// Name of the cache file of a module: the MD5 digest, in hex, of the
    /// root path and module name, with `.bin`.
    pub fn module_cache_file_name(module_name: &str, odoo_path: &str) -> (r: String)
        ensures
            r@ == (hex_of(md5_of(module_cache_key(module_name, odoo_path))) + seq![46u8, 98u8, 105u8, 110u8]).map_values(
                |x: u8| x as char,
            ),
    {
        let mut key: Vec<u8> = Vec::new();
        let p = odoo_path.as_bytes();
        let m = module_name.as_bytes();
        let mut i: usize = 0;
        while i < p.len()
            invariant
                i <= p@.len(),
                key@ == p@.subrange(0, i as int),
            decreases p@.len() - i,
        {
            key.push(p[i]);
            assert(p@.subrange(0, i + 1) =~= p@.subrange(0, i as int).push(p@[i as int]));
            i = i + 1;
        }
        key.push(58u8);
        let mut j: usize = 0;
        while j < m.len()
            invariant
                j <= m@.len(),
                key@ == p@ + seq![58u8] + m@.subrange(0, j as int),
            decreases m@.len() - j,
        {
            key.push(m[j]);
            assert(m@.subrange(0, j + 1) =~= m@.subrange(0, j as int).push(m@[j as int]));
            j = j + 1;
        }
        assert(p@.subrange(0, i as int) =~= p@);
        assert(m@.subrange(0, j as int) =~= m@);
        assert(key@ =~= module_cache_key(module_name, odoo_path));
        let digest = md5_digest(key.as_slice());
        let mut hex: Vec<u8> = Vec::new();
        let mut k: usize = 0;
        assert(digest@.take(0) =~= Seq::<u8>::empty());
        while k < 16
            invariant
                k <= 16,
                digest@.len() == 16,
                hex@ == hex_of(digest@.take(k as int)),
                forall|q: int| 0 <= q < hex@.len() ==> hex@[q] < 128,
            decreases 16 - k,
        {
            let b = digest[k];
            let hi = b / 16;
            let lo = b % 16;
            hex.push(if hi < 10 { 48 + hi } else { 87 + hi });
            hex.push(if lo < 10 { 48 + lo } else { 87 + lo });
            assert(digest@.take(k + 1).drop_last() =~= digest@.take(k as int));
            assert(digest@.take(k + 1).last() == b);
            k = k + 1;
        }
        assert(digest@.take(16) =~= digest@);
        hex.push(46u8);
        hex.push(98u8);
        hex.push(105u8);
        hex.push(110u8);
        let ghost h = hex@;
        assert(h =~= hex_of(md5_of(module_cache_key(module_name, odoo_path))) + seq![46u8, 98u8, 105u8, 110u8]);
        ascii_string(hex)
    }
}

} // verus!
