//! Suppression comments (`# noqa`, `# noqa: CODE1, CODE2`).
//!
//! A suppression comment after code on the same line suppresses diagnostics
//! on that line. Before the first statement, or right before a `class` or
//! `def`, it suppresses diagnostics of the block it precedes, keyed by the
//! offset of the block's first token (0 for the whole file).
use vstd::prelude::*;
use std::collections::HashMap;

verus! {

broadcast use vstd::std_specs::hash::group_hash_axioms;

/// What a suppression comment asks for.
pub enum NoqaInfo {
    Nothing,
    All,
    Codes(Vec<String>),
}

/// A [`NoqaInfo`] seen as values: the codes form a set.
pub enum NoqaView {
    Nothing,
    All,
    Codes(Set<Seq<char>>),
}

pub open spec fn strings_view(v: Seq<String>) -> Seq<Seq<char>> {
    v.map_values(|s: String| s@)
}

impl View for NoqaInfo {
    type V = NoqaView;

    open spec fn view(&self) -> NoqaView {
        match self {
            NoqaInfo::Nothing => NoqaView::Nothing,
            NoqaInfo::All => NoqaView::All,
            NoqaInfo::Codes(c) => NoqaView::Codes(strings_view(c@).to_set()),
        }
    }
}

/// Whether a suppression suppresses a diagnostic with the given code. A code
/// list also suppresses diagnostics that have no code.
pub open spec fn suppresses(n: NoqaView, code: Option<Seq<char>>) -> bool {
    match n {
        NoqaView::Nothing => false,
        NoqaView::All => true,
        NoqaView::Codes(c) => match code {
            Option::None => true,
            Option::Some(x) => c.contains(x),
        },
    }
}

/// Merge of several suppressions: all codes when one of them says so,
/// otherwise the union of their codes.
pub open spec fn combined(s: Seq<NoqaView>) -> NoqaView {
    if exists|i: int| 0 <= i < s.len() && #[trigger] s[i] is All {
        NoqaView::All
    } else {
        NoqaView::Codes(
            Set::new(
                |x: Seq<char>|
                    exists|i: int|
                        0 <= i < s.len() && (#[trigger] s[i] matches NoqaView::Codes(c) && c.contains(x)),
            ),
        )
    }
}

/// Whether `v` holds `s`.
fn contains_string(v: &Vec<String>, s: &String) -> (r: bool)
    ensures
        r == strings_view(v@).contains(s@),
{
    let mut i: usize = 0;
    while i < v.len()
        invariant
            i <= v@.len(),
            forall|j: int| 0 <= j < i ==> v@[j]@ != s@,
        decreases v@.len() - i,
    {
        if v[i] == *s {
            assert(strings_view(v@)[i as int] == s@);
            return true;
        }
        i = i + 1;
    }
    proof {
        if strings_view(v@).contains(s@) {
            let j = choose|j: int| 0 <= j < v@.len() && strings_view(v@)[j] == s@;
            assert(v@[j]@ == s@);
        }
    }
    false
}

/// Adds `x` to `codes` unless it is there already.
fn add_code(codes: &mut Vec<String>, x: &String)
    requires
        forall|a: int, b: int| 0 <= a < b < old(codes)@.len() ==> old(codes)@[a]@ != old(codes)@[b]@,
    ensures
        forall|a: int, b: int| 0 <= a < b < final(codes)@.len() ==> final(codes)@[a]@ != final(codes)@[b]@,
        forall|y: Seq<char>| #[trigger] strings_view(final(codes)@).contains(y) <==> (strings_view(old(codes)@).contains(y) || y == x@),
{
    let ghost prev = codes@;
    if !contains_string(codes, x) {
        let c = x.clone();
        codes.push(c);
        assert(strings_view(codes@) =~= strings_view(prev).push(x@));
        assert forall|a: int| 0 <= a < prev.len() implies prev[a]@ != x@ by {
            if prev[a]@ == x@ {
                assert(strings_view(prev)[a] == x@);
            }
        }
        assert forall|y: Seq<char>| strings_view(codes@).contains(y) <==> (strings_view(prev).contains(y) || y == x@) by {
            if strings_view(codes@).contains(y) {
                let q = choose|q: int| 0 <= q < codes@.len() && strings_view(codes@)[q] == y;
                if q < prev.len() {
                    assert(strings_view(prev)[q] == y);
                }
            }
            if strings_view(prev).contains(y) {
                let q = choose|q: int| 0 <= q < prev.len() && strings_view(prev)[q] == y;
                assert(strings_view(codes@)[q] == y);
            }
            if y == x@ {
                assert(strings_view(codes@)[prev.len() as int] == y);
            }
        }
    }
}

/// Merges suppressions: `All` if one of them is `All`, otherwise the codes of all.
pub fn combine_noqa_info(noqas: &Vec<NoqaInfo>) -> (r: NoqaInfo)
    ensures
        r@ == combined(noqas@.map_values(|n: NoqaInfo| n@)),
        r is Codes ==> forall|i: int, j: int|
            0 <= i < j < r->Codes_0@.len() ==> r->Codes_0@[i]@ != r->Codes_0@[j]@,
{
    let ghost views = noqas@.map_values(|n: NoqaInfo| n@);
    let mut codes: Vec<String> = Vec::new();
    let mut i: usize = 0;
    while i < noqas.len()
        invariant
            i <= noqas@.len(),
            views == noqas@.map_values(|n: NoqaInfo| n@),
            forall|j: int| 0 <= j < i ==> !(#[trigger] views[j] is All),
            forall|a: int, b: int| 0 <= a < b < codes@.len() ==> codes@[a]@ != codes@[b]@,
            forall|x: Seq<char>|
                #[trigger] strings_view(codes@).contains(x) <==> exists|j: int|
                    0 <= j < i && (#[trigger] views[j] matches NoqaView::Codes(c) && c.contains(x)),
        decreases noqas@.len() - i,
    {
        match &noqas[i] {
            NoqaInfo::Nothing => {
                assert(views[i as int] is Nothing);
            },
            NoqaInfo::All => {
                assert(views[i as int] is All);
                return NoqaInfo::All;
            },
            NoqaInfo::Codes(c) => {
                let ghost before = codes@;
                assert(views[i as int] == NoqaView::Codes(strings_view(c@).to_set()));
                let mut k: usize = 0;
                while k < c.len()
                    invariant
                        k <= c@.len(),
                        forall|a: int, b: int| 0 <= a < b < codes@.len() ==> codes@[a]@ != codes@[b]@,
                        forall|x: Seq<char>|
                            #[trigger] strings_view(codes@).contains(x) <==> (strings_view(before).contains(x)
                                || exists|u: int| 0 <= u < k && c@[u]@ == x),
                    decreases c@.len() - k,
                {
                    let ghost prev = codes@;
                    add_code(&mut codes, &c[k]);
                    assert forall|x: Seq<char>|
                        #[trigger] strings_view(codes@).contains(x) <==> (strings_view(before).contains(x)
                            || exists|u: int| 0 <= u < k + 1 && c@[u]@ == x) by {
                        assert(strings_view(prev).contains(x) <==> (strings_view(before).contains(x)
                            || exists|u: int| 0 <= u < k && c@[u]@ == x));
                        if x == c@[k as int]@ {
                            assert(exists|u: int| 0 <= u < k + 1 && c@[u]@ == x);
                        }
                        if exists|u: int| 0 <= u < k + 1 && c@[u]@ == x {
                            let u = choose|u: int| 0 <= u < k + 1 && c@[u]@ == x;
                            if u < k {
                                assert(exists|u: int| 0 <= u < k && c@[u]@ == x);
                            }
                        }
                    }
                    k = k + 1;
                }
                proof {
                    assert forall|x: Seq<char>|
                        #[trigger] strings_view(codes@).contains(x) <==> exists|j: int|
                            0 <= j < i + 1 && (#[trigger] views[j] matches NoqaView::Codes(cc) && cc.contains(x)) by {
                        let sc = strings_view(c@);
                        assert(sc.to_set().contains(x) == sc.contains(x));
                        assert(strings_view(codes@).contains(x) <==> (strings_view(before).contains(x)
                            || exists|u: int| 0 <= u < c@.len() && c@[u]@ == x));
                        assert(strings_view(before).contains(x) <==> exists|j: int|
                            0 <= j < i && (#[trigger] views[j] matches NoqaView::Codes(cc) && cc.contains(x)));
                        if sc.contains(x) {
                            let u = choose|u: int| 0 <= u < sc.len() && sc[u] == x;
                            assert(c@[u]@ == x);
                        }
                        if exists|u: int| 0 <= u < c@.len() && c@[u]@ == x {
                            let u = choose|u: int| 0 <= u < c@.len() && c@[u]@ == x;
                            assert(sc[u] == x);
                            assert(views[i as int] matches NoqaView::Codes(cc) && cc.contains(x));
                        }
                        if exists|j: int| 0 <= j < i + 1 && (#[trigger] views[j] matches NoqaView::Codes(cc) && cc.contains(x)) {
                            let j = choose|j: int| 0 <= j < i + 1 && (#[trigger] views[j] matches NoqaView::Codes(cc) && cc.contains(x));
                            if j == i {
                                assert(sc.contains(x));
                            }
                        }
                    }
                }
            },
        }
        i = i + 1;
    }
    proof {
        let r = NoqaView::Codes(strings_view(codes@).to_set());
        assert(combined(views) == r) by {
            assert(strings_view(codes@).to_set() =~= Set::new(
                |x: Seq<char>|
                    exists|j: int|
                        0 <= j < views.len() && (#[trigger] views[j] matches NoqaView::Codes(c) && c.contains(x)),
            ));
        }
    }
    NoqaInfo::Codes(codes)
}

// ====== Reading a comment ==========

/// `char::is_whitespace`: the Unicode White_Space property.
pub open spec fn is_white_space(c: char) -> bool {
    let u = c as u32;
    (9 <= u <= 13) || u == 32 || u == 0x85 || u == 0xa0 || u == 0x1680 || (0x2000 <= u <= 0x200a)
        || u == 0x2028 || u == 0x2029 || u == 0x202f || u == 0x205f || u == 0x3000
}

/// Characters that separate codes.
pub open spec fn is_code_sep(c: char) -> bool {
    c == ',' || c == ':' || is_white_space(c)
}

/// The maximal runs of non-separators of `s`, in order.
pub open spec fn code_words(s: Seq<char>) -> Seq<Seq<char>>
    decreases s.len(),
{
    if s.len() == 0 {
        seq![]
    } else {
        let w = code_words(s.drop_last());
        let c = s.last();
        if is_code_sep(c) {
            w
        } else if s.len() >= 2 && !is_code_sep(s[s.len() - 2]) {
            w.drop_last().push(w.last().push(c))
        } else {
            w.push(seq![c])
        }
    }
}

pub open spec fn noqa_word() -> Seq<char> {
    seq!['n', 'o', 'q', 'a']
}

pub open spec fn has_prefix(t: Seq<char>, p: Seq<char>) -> bool {
    t.len() >= p.len() && t.subrange(0, p.len() as int) == p
}

/// Where the text after the first `noqa` starts, for a suppression comment:
/// `#noqa`, `# noqa` or `# odools: noqa`.
pub open spec fn noqa_start(t: Seq<char>) -> Option<int> {
    if has_prefix(t, seq!['#', 'n', 'o', 'q', 'a']) {
        Some(5)
    } else if has_prefix(t, seq!['#', ' ', 'n', 'o', 'q', 'a']) {
        Some(6)
    } else if has_prefix(t, seq!['#', ' ', 'o', 'd', 'o', 'o', 'l', 's', ':', ' ', 'n', 'o', 'q', 'a']) {
        Some(14)
    } else {
        None
    }
}

/// First position at or after `j` where `noqa` occurs, or the length.
pub open spec fn noqa_end(t: Seq<char>, j: int) -> int
    decreases t.len() - j,
{
    if j < 0 || j + 4 > t.len() {
        t.len() as int
    } else if t.subrange(j, j + 4) == noqa_word() {
        j
    } else {
        noqa_end(t, j + 1)
    }
}

/// What a comment asks for: `None` when it is no suppression comment, `All`
/// when it names no code, the codes it names otherwise (those between the
/// first `noqa` and the next one).
pub open spec fn noqa_of(t: Seq<char>) -> Option<NoqaView> {
    match noqa_start(t) {
        None => None,
        Some(a) => {
            let w = code_words(t.subrange(a, noqa_end(t, a)));
            if w.len() == 0 {
                Some(NoqaView::All)
            } else {
                Some(NoqaView::Codes(w.to_set()))
            }
        },
    }
}

fn is_code_sep_char(c: char) -> (r: bool)
    ensures
        r == is_code_sep(c),
{
    let u = c as u32;
    c == ',' || c == ':' || (9 <= u && u <= 13) || u == 32 || u == 0x85 || u == 0xa0 || u == 0x1680
        || (0x2000 <= u && u <= 0x200a) || u == 0x2028 || u == 0x2029 || u == 0x202f || u == 0x205f
        || u == 0x3000
}

/// Whether the characters of `t` from `at` on start with `p`.
fn chars_at(t: &str, len: usize, at: usize, p: &Vec<char>) -> (r: bool)
    requires
        len == t@.len(),
    ensures
        r == (at + p@.len() <= len && t@.subrange(at as int, at + p@.len()) == p@),
{
    if at > len || p.len() > len - at {
        return false;
    }
    let mut i: usize = 0;
    while i < p.len()
        invariant
            len == t@.len(),
            at + p@.len() <= len,
            i <= p@.len(),
            t@.subrange(at as int, at + i) == p@.subrange(0, i as int),
        decreases p@.len() - i,
    {
        if t.get_char(at + i) != p[i] {
            assert(t@.subrange(at as int, at + p@.len())[i as int] != p@[i as int]);
            return false;
        }
        assert(t@.subrange(at as int, at + i + 1) =~= t@.subrange(at as int, at + i).push(t@[at + i]));
        assert(p@.subrange(0, i + 1) =~= p@.subrange(0, i as int).push(p@[i as int]));
        i = i + 1;
    }
    assert(p@.subrange(0, i as int) =~= p@);
    true
}

/// The codes of `t` between positions `a` and `b`, each a maximal run of non-separators.
fn read_codes(t: &str, a: usize, b: usize) -> (r: Vec<String>)
    requires
        a <= b <= t@.len(),
    ensures
        strings_view(r@) == code_words(t@.subrange(a as int, b as int)),
{
    let ghost seg = t@.subrange(a as int, b as int);
    let mut out: Vec<String> = Vec::new();
    let mut start: usize = a;
    let mut in_word = false;
    let mut i: usize = a;
    assert(seg.take(0) =~= Seq::<char>::empty());
    while i < b
        invariant
            a <= i <= b <= t@.len(),
            seg == t@.subrange(a as int, b as int),
            a <= start <= i,
            in_word ==> start < i && !is_code_sep(t@[i - 1]) && code_words(seg.take(i - a)) == strings_view(out@).push(t@.subrange(start as int, i as int)),
            in_word ==> forall|q: int| start <= q < i ==> !is_code_sep(#[trigger] t@[q]),
            in_word ==> (start == a || is_code_sep(t@[start - 1])),
            !in_word ==> code_words(seg.take(i - a)) == strings_view(out@),
            !in_word ==> (i == a || is_code_sep(t@[i - 1])),
        decreases b - i,
    {
        let c = t.get_char(i);
        let ghost k = i - a;
        assert(seg.take(k + 1).drop_last() =~= seg.take(k));
        assert(seg.take(k + 1).last() == c);
        if is_code_sep_char(c) {
            if in_word {
                let w = t.substring_char(start, i).to_owned();
                out.push(w);
                assert(strings_view(out@) =~= strings_view(out@.drop_last()).push(w@));
                in_word = false;
            }
        } else {
            if !in_word {
                start = i;
                in_word = true;
                proof {
                    if k >= 1 {
                        assert(seg.take(k + 1)[k - 1] == t@[i - 1]);
                    }
                    assert(t@.subrange(start as int, i + 1) =~= seq![c]);
                }
            } else {
                proof {
                    assert(seg.take(k + 1)[k - 1] == t@[i - 1]);
                    assert(t@.subrange(start as int, i + 1) =~= t@.subrange(start as int, i as int).push(c));
                }
            }
        }
        i = i + 1;
    }
    assert(seg.take(b - a) =~= seg);
    if in_word {
        let w = t.substring_char(start, b).to_owned();
        out.push(w);
        assert(strings_view(out@) =~= strings_view(out@.drop_last()).push(w@));
    }
    out
}

/// Reads a suppression comment. `None` when `text` is no suppression comment.
pub fn parse_noqa_comment(text: &str) -> (r: Option<NoqaInfo>)
    ensures
        r is None <==> noqa_of(text@) is None,
        r matches Some(n) ==> noqa_of(text@) == Some(n@),
{
    let len = text.unicode_len();
    let start: usize = if chars_at(text, len, 0, &vec!['#', 'n', 'o', 'q', 'a']) {
        5
    } else if chars_at(text, len, 0, &vec!['#', ' ', 'n', 'o', 'q', 'a']) {
        6
    } else if chars_at(text, len, 0, &vec!['#', ' ', 'o', 'd', 'o', 'o', 'l', 's', ':', ' ', 'n', 'o', 'q', 'a']) {
        14
    } else {
        return None;
    };
    let noqa = vec!['n', 'o', 'q', 'a'];
    let mut end: usize = start;
    while len - end >= 4 && !chars_at(text, len, end, &noqa)
        invariant
            len == text@.len(),
            start <= end <= len,
            start <= len,
            noqa@ == noqa_word(),
            noqa_end(text@, start as int) == noqa_end(text@, end as int),
        decreases len - end,
    {
        end = end + 1;
    }
    if len - end < 4 {
        end = len;
    }
    let codes = read_codes(text, start, end);
    proof {
        assert(strings_view(codes@).to_set() == code_words(text@.subrange(start as int, end as int)).to_set());
    }
    if codes.len() == 0 {
        Some(NoqaInfo::All)
    } else {
        Some(NoqaInfo::Codes(codes))
    }
}

// ====== Scanning the tokens of a file ==========

/// The kinds of token the scan tells apart.
pub enum TokenKind {
    Comment,
    Class,
    Def,
    NonLogicalNewline,
    Other,
}

/// A token of a parsed file: its kind, start offset, 0-based line and, for a
/// comment, its text.
pub struct SourceToken {
    pub kind: TokenKind,
    pub start: u32,
    pub line: u32,
    pub text: String,
}

/// State of the scan over the tokens of a file.
pub struct NoqaScan {
    /// Block suppressions by offset of the block's first token.
    pub blocs: HashMap<u32, NoqaInfo>,
    /// Line suppressions by 0-based line.
    pub lines: HashMap<u32, NoqaInfo>,
    /// No statement seen yet.
    pub is_first_expr: bool,
    /// A suppression comment waiting for the next `class` or `def`.
    pub pending: Option<NoqaInfo>,
    /// Line of the previous token.
    pub prev_line: Option<u32>,
}

pub struct ScanView {
    pub blocs: Map<u32, NoqaView>,
    pub lines: Map<u32, NoqaView>,
    pub first: bool,
    pub pending: Option<NoqaView>,
    pub prev: Option<u32>,
}

impl View for NoqaScan {
    type V = ScanView;

    open spec fn view(&self) -> ScanView {
        ScanView {
            blocs: self.blocs@.map_values(|n: NoqaInfo| n@),
            lines: self.lines@.map_values(|n: NoqaInfo| n@),
            first: self.is_first_expr,
            pending: match self.pending {
                Option::Some(n) => Option::Some(n@),
                Option::None => Option::None,
            },
            prev: self.prev_line,
        }
    }
}

/// Adds a block suppression, merged with one already at that offset.
pub open spec fn add_bloc(b: Map<u32, NoqaView>, k: u32, n: NoqaView) -> Map<u32, NoqaView> {
    if b.contains_key(k) {
        b.insert(k, combined(seq![b[k], n]))
    } else {
        b.insert(k, n)
    }
}

/// One token of the scan. A suppression comment on the line of the previous
/// token suppresses that line; before any statement it suppresses the whole
/// file; otherwise it waits for the next `class` or `def`.
pub open spec fn scan_step(s: ScanView, kind: TokenKind, start: u32, line: u32, text: Seq<char>) -> ScanView {
    match kind {
        TokenKind::Comment => match noqa_of(text) {
            Option::Some(n) => if s.prev == Some(line) {
                ScanView { lines: s.lines.insert(line, n), pending: None, ..s }
            } else if s.first {
                ScanView { blocs: add_bloc(s.blocs, 0, n), pending: None, prev: Some(line), ..s }
            } else {
                ScanView { pending: Some(n), prev: Some(line), ..s }
            },
            Option::None => ScanView { prev: Some(line), ..s },
        },
        TokenKind::Class | TokenKind::Def => match s.pending {
            Option::Some(n) => ScanView { blocs: add_bloc(s.blocs, start, n), pending: None, prev: Some(line), ..s },
            Option::None => ScanView { prev: Some(line), ..s },
        },
        TokenKind::NonLogicalNewline => ScanView { prev: Some(line), ..s },
        TokenKind::Other => ScanView { first: false, prev: Some(line), ..s },
    }
}

pub open spec fn initial_scan() -> ScanView {
    ScanView { blocs: Map::empty(), lines: Map::empty(), first: true, pending: None, prev: None }
}

/// The scan over a whole token sequence.
pub open spec fn scan_all(t: Seq<SourceToken>) -> ScanView
    decreases t.len(),
{
    if t.len() == 0 {
        initial_scan()
    } else {
        let k = t.last();
        scan_step(scan_all(t.drop_last()), k.kind, k.start, k.line, k.text@)
    }
}

impl NoqaScan {
    pub fn new() -> (r: Self)
        ensures
            r@ == initial_scan(),
    {
        let r = NoqaScan { blocs: HashMap::new(), lines: HashMap::new(), is_first_expr: true, pending: None, prev_line: None };
        assert(r@.blocs =~= Map::empty());
        assert(r@.lines =~= Map::empty());
        r
    }

    /// Adds a block suppression at offset `k`, merged with one already there.
    pub fn add_noqa_bloc(&mut self, k: u32, n: NoqaInfo)
        ensures
            final(self)@ == (ScanView { blocs: add_bloc(old(self)@.blocs, k, n@), ..old(self)@ }),
    {
        let ghost b0 = self.blocs@;
        match self.blocs.remove(&k) {
            Some(prev) => {
                let ghost pv = prev@;
                let both = vec![prev, n];
                let merged = combine_noqa_info(&both);
                assert(both@.map_values(|x: NoqaInfo| x@) =~= seq![pv, n@]);
                self.blocs.insert(k, merged);
                assert(self.blocs@.map_values(|x: NoqaInfo| x@) =~= b0.map_values(|x: NoqaInfo| x@).insert(k, combined(seq![pv, n@])));
            },
            None => {
                let ghost nv = n@;
                self.blocs.insert(k, n);
                assert(self.blocs@.map_values(|x: NoqaInfo| x@) =~= b0.map_values(|x: NoqaInfo| x@).insert(k, nv));
            },
        }
    }

    /// Takes one token into account.
    pub fn scan_token(&mut self, tok: &SourceToken)
        ensures
            final(self)@ == scan_step(old(self)@, tok.kind, tok.start, tok.line, tok.text@),
    {
        match tok.kind {
            TokenKind::Comment => {
                match parse_noqa_comment(tok.text.as_str()) {
                    Some(n) => {
                        if self.prev_line == Some(tok.line) {
                            let ghost l0 = self.lines@;
                            let ghost nv = n@;
                            self.lines.insert(tok.line, n);
                            self.pending = None;
                            assert(self.lines@.map_values(|x: NoqaInfo| x@) =~= l0.map_values(|x: NoqaInfo| x@).insert(tok.line, nv));
                        } else if self.is_first_expr {
                            self.add_noqa_bloc(0, n);
                            self.pending = None;
                            self.prev_line = Some(tok.line);
                        } else {
                            self.pending = Some(n);
                            self.prev_line = Some(tok.line);
                        }
                    },
                    None => {
                        self.prev_line = Some(tok.line);
                    },
                }
            },
            TokenKind::Class | TokenKind::Def => {
                match self.pending.take() {
                    Some(n) => {
                        self.add_noqa_bloc(tok.start, n);
                    },
                    None => {},
                }
                self.prev_line = Some(tok.line);
            },
            TokenKind::NonLogicalNewline => {
                self.prev_line = Some(tok.line);
            },
            TokenKind::Other => {
                self.is_first_expr = false;
                self.prev_line = Some(tok.line);
            },
        }
    }
}

/// Scans the tokens of a file for suppression comments.
pub fn extract_noqas(tokens: &Vec<SourceToken>) -> (r: NoqaScan)
    ensures
        r@ == scan_all(tokens@),
{
    let mut s = NoqaScan::new();
    let mut i: usize = 0;
    assert(tokens@.take(0) =~= Seq::<SourceToken>::empty());
    while i < tokens.len()
        invariant
            i <= tokens@.len(),
            s@ == scan_all(tokens@.take(i as int)),
        decreases tokens@.len() - i,
    {
        s.scan_token(&tokens[i]);
        assert(tokens@.take(i + 1).drop_last() =~= tokens@.take(i as int));
        assert(tokens@.take(i + 1).last() == tokens@[i as int]);
        i = i + 1;
    }
    assert(tokens@.take(i as int) =~= tokens@);
    s
}

// ====== Deciding ==========

/// A diagnostic with `code` at key `k` (a line, or a block offset) is suppressed.
pub open spec fn suppressed_at(m: Map<u32, NoqaView>, k: u32, code: Option<Seq<char>>) -> bool {
    m.contains_key(k) && suppresses(m[k], code)
}

pub open spec fn opt_str_view(code: Option<&str>) -> Option<Seq<char>> {
    match code {
        Option::Some(c) => Option::Some(c@),
        Option::None => Option::None,
    }
}

/// Whether the suppression stored under `k` suppresses a diagnostic with `code`.
pub fn is_suppressed(m: &HashMap<u32, NoqaInfo>, k: u32, code: Option<&str>) -> (r: bool)
    ensures
        r == suppressed_at(m@.map_values(|n: NoqaInfo| n@), k, opt_str_view(code)),
{
    match m.get(&k) {
        None => false,
        Some(NoqaInfo::Nothing) => false,
        Some(NoqaInfo::All) => true,
        Some(NoqaInfo::Codes(c)) => match code {
            None => true,
            Some(x) => {
                let xs = x.to_owned();
                let ghost mv = m@.map_values(|n: NoqaInfo| n@);
                assert(mv.contains_key(k) && mv[k] == NoqaView::Codes(strings_view(c@).to_set()));
                let mut i: usize = 0;
                while i < c.len()
                    invariant
                        i <= c@.len(),
                        xs@ == x@,
                        mv == m@.map_values(|n: NoqaInfo| n@),
                        mv.contains_key(k) && mv[k] == NoqaView::Codes(strings_view(c@).to_set()),
                        opt_str_view(code) == Some(x@),
                        forall|j: int| 0 <= j < i ==> c@[j]@ != x@,
                    decreases c@.len() - i,
                {
                    if c[i] == xs {
                        assert(strings_view(c@)[i as int] == x@);
                        assert(strings_view(c@).contains(x@));
                        assert(strings_view(c@).to_set().contains(x@));
                        return true;
                    }
                    i = i + 1;
                }
                proof {
                    if strings_view(c@).contains(x@) {
                        let j = choose|j: int| 0 <= j < c@.len() && strings_view(c@)[j] == x@;
                        assert(c@[j]@ == x@);
                    }
                }
                false
            },
        },
    }
}

/// A suppression comment that follows code on its line suppresses, on that
/// line, what it names (every diagnostic when it names no code), and changes
/// nothing for any other line or block.
pub proof fn lemma_trailing_comment_suppresses_its_line(
    s: ScanView,
    start: u32,
    line: u32,
    text: Seq<char>,
    other: u32,
    code: Option<Seq<char>>,
)
    requires
        s.prev == Some(line),
        noqa_of(text) is Some,
    ensures
        suppressed_at(scan_step(s, TokenKind::Comment, start, line, text).lines, line, code)
            == suppresses(noqa_of(text)->0, code),
        noqa_of(text) == Some(NoqaView::All) ==> suppressed_at(scan_step(s, TokenKind::Comment, start, line, text).lines, line, code),
        other != line ==> suppressed_at(scan_step(s, TokenKind::Comment, start, line, text).lines, other, code)
            == suppressed_at(s.lines, other, code),
        scan_step(s, TokenKind::Comment, start, line, text).blocs == s.blocs,
{
}

/// A suppression comment waiting for a block suppresses, at the offset of the
/// next `class` or `def`, what it names (every diagnostic when it names no
/// code), and changes nothing at any other offset nor for any line.
pub proof fn lemma_block_comment_suppresses_its_anchor(
    s: ScanView,
    kind: TokenKind,
    start: u32,
    line: u32,
    other: u32,
    code: Option<Seq<char>>,
)
    requires
        s.pending is Some,
        kind is Class || kind is Def,
        !s.blocs.contains_key(start),
    ensures
        suppressed_at(scan_step(s, kind, start, line, seq![]).blocs, start, code) == suppresses(s.pending->0, code),
        s.pending == Some(NoqaView::All) ==> suppressed_at(scan_step(s, kind, start, line, seq![]).blocs, start, code),
        other != start ==> suppressed_at(scan_step(s, kind, start, line, seq![]).blocs, other, code)
            == suppressed_at(s.blocs, other, code),
        scan_step(s, kind, start, line, seq![]).lines == s.lines,
{
}

} // verus!
