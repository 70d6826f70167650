//! Version and content bookkeeping of a tracked file.
//!
//! An update carries a version number; it goes ahead only when the version
//! is newer than the one recorded (or when forced). The sentinel version
//! `NOT_OPENED` marks a file known from disk only. After an update, the hash
//! of the new content decides whether the file's symbols must be built again.
use vstd::prelude::*;

verus! {

/// Version given to a file that the editor has not opened.
pub const NOT_OPENED: i32 = -100;

/// Version state of a file.
#[derive(Clone, Copy, PartialEq, Eq, Structural)]
pub struct FileVersion {
    pub version: Option<i32>,
    pub opened: bool,
}

/// Outcome of an update request: whether it goes ahead, and the new state.
pub open spec fn version_update(s: FileVersion, version: Option<i32>, force: bool) -> (bool, FileVersion) {
    match version {
        Some(v) => if v == NOT_OPENED {
            if !s.opened {
                (true, FileVersion { version: Some(NOT_OPENED), ..s })
            } else {
                (force, s)
            }
        } else {
            let newer = match s.version {
                Some(c) => c < v,
                None => true,
            };
            if !newer && !force {
                (false, FileVersion { opened: true, ..s })
            } else {
                (true, FileVersion { version: Some(v), opened: true })
            }
        },
        None => if s.version is Some && !force {
            (false, s)
        } else {
            (true, s)
        },
    }
}

impl FileVersion {
    /// A file not known yet.
    pub fn new() -> (r: Self)
        ensures
            r.version is None,
            !r.opened,
    {
        FileVersion { version: None, opened: false }
    }

    /// Records an update request and says whether it goes ahead.
    pub fn accept_update(&mut self, version: Option<i32>, force: bool) -> (r: bool)
        ensures
            (r, *final(self)) == version_update(*old(self), version, force),
    {
        match version {
            Some(v) => {
                if v == NOT_OPENED {
                    if !self.opened {
                        self.version = Some(NOT_OPENED);
                        true
                    } else {
                        force
                    }
                } else {
                    self.opened = true;
                    let newer = match self.version {
                        Some(c) => c < v,
                        None => true,
                    };
                    if !newer && !force {
                        false
                    } else {
                        self.version = Some(v);
                        true
                    }
                }
            },
            None => !(self.version.is_some() && !force),
        }
    }
}

/// Whether a change notification leads to an update of the file at all: it
/// does when it carries a real version, when the file is not open, or when forced.
pub fn should_update_file(version: Option<i32>, opened: bool, force: bool) -> (r: bool)
    ensures
        r == ((version is Some && version != Some(NOT_OPENED)) || !opened || force),
{
    let has_version = match version {
        Some(v) => v != NOT_OPENED,
        None => false,
    };
    has_version || !opened || force
}

/// Untitled (in-memory) files are named `untitled:...`.
pub open spec fn is_untitled_name(path: Seq<char>) -> bool {
    path.len() >= 9 && path.subrange(0, 9) == seq!['u', 'n', 't', 'i', 't', 'l', 'e', 'd', ':']
}

/// Whether a path names an untitled (in-memory) file.
pub fn is_untitled(path: &str) -> (r: bool)
    ensures
        r == is_untitled_name(path@),
{
    let len = path.unicode_len();
    if len < 9 {
        return false;
    }
    let p = vec!['u', 'n', 't', 'i', 't', 'l', 'e', 'd', ':'];
    let mut i: usize = 0;
    while i < 9
        invariant
            len == path@.len(),
            len >= 9,
            p@ == seq!['u', 'n', 't', 'i', 't', 'l', 'e', 'd', ':'],
            i <= 9,
            path@.subrange(0, i as int) == p@.subrange(0, i as int),
        decreases 9 - i,
    {
        if path.get_char(i) != p[i] {
            assert(path@.subrange(0, 9)[i as int] != p@[i as int]);
            return false;
        }
        assert(path@.subrange(0, i + 1) =~= path@.subrange(0, i as int).push(path@[i as int]));
        assert(p@.subrange(0, i + 1) =~= p@.subrange(0, i as int).push(p@[i as int]));
        i = i + 1;
    }
    assert(p@.subrange(0, 9) =~= p@);
    true
}

// ====== Kind of content ==========

/// How a file's content is read.
#[derive(Clone, Copy, PartialEq, Eq, Structural)]
pub enum AstType {
    Python,
    Xml,
    Csv,
}

/// Flavour of Python source.
#[derive(Clone, Copy, PartialEq, Eq, Structural)]
pub enum PythonSourceKind {
    Python,
    Stub,
    Ipynb,
}

pub open spec fn has_suffix(s: Seq<char>, x: Seq<char>) -> bool {
    s.len() >= x.len() && s.subrange(s.len() - x.len(), s.len() as int) == x
}

/// Whether `s` ends with the characters `x`.
fn ends_with_chars(s: &str, x: &Vec<char>) -> (r: bool)
    ensures
        r == has_suffix(s@, x@),
{
    let n = s.unicode_len();
    let m = x.len();
    if m > n {
        return false;
    }
    let mut i: usize = 0;
    while i < m
        invariant
            n == s@.len(),
            m == x@.len(),
            m <= n,
            i <= m,
            s@.subrange(n - m, n - m + i) == x@.subrange(0, i as int),
        decreases m - i,
    {
        if s.get_char(n - m + i) != x[i] {
            assert(s@.subrange(n - m, n as int)[i as int] != x@[i as int]);
            return false;
        }
        assert(s@.subrange(n - m, n - m + i + 1) =~= s@.subrange(n - m, n - m + i).push(s@[n - m + i]));
        assert(x@.subrange(0, i + 1) =~= x@.subrange(0, i as int).push(x@[i as int]));
        i = i + 1;
    }
    assert(x@.subrange(0, i as int) =~= x@);
    true
}

/// XML and CSV files are data files; everything else is Python.
pub fn ast_type_of(uri: &str) -> (r: AstType)
    ensures
        r == if has_suffix(uri@, seq!['.', 'x', 'm', 'l']) {
            AstType::Xml
        } else if has_suffix(uri@, seq!['.', 'c', 's', 'v']) {
            AstType::Csv
        } else {
            AstType::Python
        },
{
    if ends_with_chars(uri, &vec!['.', 'x', 'm', 'l']) {
        AstType::Xml
    } else if ends_with_chars(uri, &vec!['.', 'c', 's', 'v']) {
        AstType::Csv
    } else {
        AstType::Python
    }
}

/// Stubs (`.pyi`) and notebooks (`.ipynb`) parse differently.
pub fn python_source_kind(uri: &str) -> (r: PythonSourceKind)
    ensures
        r == if has_suffix(uri@, seq!['.', 'p', 'y', 'i']) {
            PythonSourceKind::Stub
        } else if has_suffix(uri@, seq!['.', 'i', 'p', 'y', 'n', 'b']) {
            PythonSourceKind::Ipynb
        } else {
            PythonSourceKind::Python
        },
{
    if ends_with_chars(uri, &vec!['.', 'p', 'y', 'i']) {
        PythonSourceKind::Stub
    } else if ends_with_chars(uri, &vec!['.', 'i', 'p', 'y', 'n', 'b']) {
        PythonSourceKind::Ipynb
    } else {
        PythonSourceKind::Python
    }
}

// ====== Build state ==========

/// Progress of one build step of a file.
#[allow(non_camel_case_types)]
#[derive(Clone, Copy, PartialEq, Eq, Structural)]
pub enum BuildStatus {
    PENDING,
    IN_PROGRESS,
    DONE,
}

/// The build steps, in the order they run.
#[allow(non_camel_case_types)]
#[derive(Clone, Copy, PartialEq, Eq, Structural)]
pub enum BuildSteps {
    SYNTAX,
    ARCH,
    ARCH_EVAL,
    VALIDATION,
}

/// Content hash and build progress of a file.
#[derive(Clone, Copy, PartialEq, Eq, Structural)]
pub struct FileBuildState {
    pub processed_text_hash: u64,
    pub arch_status: BuildStatus,
    pub arch_eval_status: BuildStatus,
    pub validation_status: BuildStatus,
}

/// State after content with hash `h` was read: unchanged for the same hash,
/// every step to run again otherwise.
pub open spec fn after_content(s: FileBuildState, h: u64) -> FileBuildState {
    if h == s.processed_text_hash {
        s
    } else {
        FileBuildState {
            processed_text_hash: h,
            arch_status: BuildStatus::PENDING,
            arch_eval_status: BuildStatus::PENDING,
            validation_status: BuildStatus::PENDING,
        }
    }
}

impl FileBuildState {
    /// A file restored from the cache: its structure is known, the later
    /// steps have to run.
    pub fn restored(processed_text_hash: u64) -> (r: Self)
        ensures
            r.processed_text_hash == processed_text_hash,
            r.arch_status == BuildStatus::DONE,
            r.arch_eval_status == BuildStatus::PENDING,
            r.validation_status == BuildStatus::PENDING,
    {
        FileBuildState {
            processed_text_hash,
            arch_status: BuildStatus::DONE,
            arch_eval_status: BuildStatus::PENDING,
            validation_status: BuildStatus::PENDING,
        }
    }

    /// Takes the hash of freshly read content; returns whether it changed.
    pub fn content_changed(&mut self, new_hash: u64) -> (changed: bool)
        ensures
            changed == (new_hash != old(self).processed_text_hash),
            *final(self) == after_content(*old(self), new_hash),
    {
        if new_hash == self.processed_text_hash {
            return false;
        }
        self.processed_text_hash = new_hash;
        self.arch_status = BuildStatus::PENDING;
        self.arch_eval_status = BuildStatus::PENDING;
        self.validation_status = BuildStatus::PENDING;
        true
    }
}

/// Reading content with the same hash again leaves the file's build state,
/// and so every step already done, as it was; doing it twice is doing it once.
pub proof fn lemma_same_content_keeps_build(s: FileBuildState, h: u64)
    ensures
        after_content(s, s.processed_text_hash) == s,
        after_content(after_content(s, h), h) == after_content(s, h),
{
}

} // verus!
