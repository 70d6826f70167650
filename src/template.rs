//! Path templates: `${name}` stands for the value of the variable `name`
//! (one or more characters other than `}`).
use vstd::prelude::*;

verus! {

/// Position of the first `}` at or after `j`, or the length.
pub open spec fn close_from(t: Seq<char>, j: int) -> int
    decreases t.len() - j,
{
    if j < 0 || j >= t.len() {
        t.len() as int
    } else if t[j] == '}' {
        j
    } else {
        close_from(t, j + 1)
    }
}

/// A variable `${name}` starts at `i`.
pub open spec fn var_at(t: Seq<char>, i: int) -> bool {
    0 <= i && i + 1 < t.len() && t[i] == '$' && t[i + 1] == '{' && close_from(t, i + 2) < t.len()
        && close_from(t, i + 2) > i + 2
}

/// The value of `key` among `vars`: the first pair with that key.
pub open spec fn lookup(vars: Seq<(Seq<char>, Seq<char>)>, key: Seq<char>) -> Option<Seq<char>>
    decreases vars.len(),
{
    if vars.len() == 0 {
        None
    } else if vars[0].0 == key {
        Some(vars[0].1)
    } else {
        lookup(vars.drop_first(), key)
    }
}

/// The template from position `i` on with its variables replaced (an unknown
/// one by nothing), and the last unknown variable name, if any.
pub open spec fn filled_from(t: Seq<char>, vars: Seq<(Seq<char>, Seq<char>)>, i: int) -> (Seq<char>, Option<Seq<char>>)
    decreases t.len() - i,
{
    if i < 0 || i >= t.len() {
        (seq![], None)
    } else if var_at(t, i) {
        let j = close_from(t, i + 2);
        let key = t.subrange(i + 2, j);
        let (rest, bad) = filled_from(t, vars, j + 1);
        match lookup(vars, key) {
            Some(v) => (v + rest, bad),
            None => (rest, if bad is Some { bad } else { Some(key) }),
        }
    } else {
        let (rest, bad) = filled_from(t, vars, i + 1);
        (seq![t[i]] + rest, bad)
    }
}

pub open spec fn vars_view(vars: Seq<(String, String)>) -> Seq<(Seq<char>, Seq<char>)> {
    vars.map_values(|p: (String, String)| (p.0@, p.1@))
}

/// The error for an unknown variable.
pub open spec fn invalid_key_message(key: Seq<char>) -> Seq<char> {
    seq!['I', 'n', 'v', 'a', 'l', 'i', 'd', ' ', 'k', 'e', 'y', ' ', '('] + key + seq![
        ')',
        ' ',
        'i',
        'n',
        ' ',
        'p',
        'a',
        't',
        't',
        'e',
        'r',
        'n',
    ]
}

/// Relies on `String::from_iter`: the string of the given characters, in order.
#[verifier::external_body]
fn string_of_chars(v: Vec<char>) -> (r: String)
    ensures
        r@ == v@,
{
    String::from_iter(v)
}

/// Position of the first `}` at or after `j`, or the length.
fn find_close(t: &str, len: usize, j: usize) -> (r: usize)
    requires
        len == t@.len(),
    ensures
        r as int == close_from(t@, j as int),
{
    let mut k = j;
    while k < len && t.get_char(k) != '}'
        invariant
            len == t@.len(),
            j <= k,
            close_from(t@, j as int) == close_from(t@, k as int),
        decreases len - k,
    {
        k = k + 1;
    }
    if k > len {
        len
    } else {
        k
    }
}

/// Whether a variable `${name}` starts at `i`; if so, where its `}` is.
fn var_end(t: &str, len: usize, i: usize) -> (r: Option<usize>)
    requires
        len == t@.len(),
        i < len,
    ensures
        r is Some <==> var_at(t@, i as int),
        r matches Some(j) ==> j as int == close_from(t@, i + 2),
{
    if i + 1 < len && t.get_char(i) == '$' && t.get_char(i + 1) == '{' {
        let j = find_close(t, len, i + 2);
        if j < len && j > i + 2 {
            return Some(j);
        }
    }
    None
}

/// Appends the characters of `s` to `out`.
fn push_chars(out: &mut Vec<char>, s: &str)
    ensures
        final(out)@ == old(out)@ + s@,
{
    let ghost start = out@;
    let n = s.unicode_len();
    let mut i: usize = 0;
    while i < n
        invariant
            n == s@.len(),
            i <= n,
            out@ == start + s@.subrange(0, i as int),
        decreases n - i,
    {
        out.push(s.get_char(i));
        assert(s@.subrange(0, i + 1) =~= s@.subrange(0, i as int).push(s@[i as int]));
        i = i + 1;
    }
    assert(s@.subrange(0, i as int) =~= s@);
}

/// The value of `key` among `vars`.
fn find_var<'v>(vars: &'v Vec<(String, String)>, key: &String) -> (r: Option<&'v String>)
    ensures
        match r {
            Some(v) => lookup(vars_view(vars@), key@) == Some(v@),
            None => lookup(vars_view(vars@), key@) is None,
        },
{
    let ghost vv = vars_view(vars@);
    let mut k: usize = 0;
    assert(vv.skip(0) =~= vv);
    while k < vars.len()
        invariant
            vv == vars_view(vars@),
            k <= vars@.len(),
            lookup(vv, key@) == lookup(vv.skip(k as int), key@),
        decreases vars@.len() - k,
    {
        assert(vv.skip(k as int)[0] == (vars@[k as int].0@, vars@[k as int].1@));
        if vars[k].0 == *key {
            return Some(&vars[k].1);
        }
        assert(vv.skip(k as int).drop_first() =~= vv.skip(k + 1));
        k = k + 1;
    }
    None
}

/// Whether a template holds a variable `${name}`.
pub fn has_template(template: &str) -> (r: bool)
    ensures
        r == exists|i: int| var_at(template@, i),
{
    let len = template.unicode_len();
    let mut i: usize = 0;
    while i < len
        invariant
            len == template@.len(),
            i <= len,
            forall|k: int| 0 <= k < i ==> !var_at(template@, k),
        decreases len - i,
    {
        if var_end(template, len, i).is_some() {
            return true;
        }
        i = i + 1;
    }
    proof {
        assert forall|k: int| !var_at(template@, k) by {
            if 0 <= k < len {
            }
        }
    }
    false
}

/// Replaces each variable `${name}` of a template by its value. An unknown
/// name is an error, which names the last unknown one.
pub fn fill_template(template: &str, vars: &Vec<(String, String)>) -> (r: Result<String, String>)
    ensures
        ({
            let (out, bad) = filled_from(template@, vars_view(vars@), 0);
            match r {
                Ok(s) => bad is None && s@ == out,
                Err(e) => bad matches Some(k) && e@ == invalid_key_message(k),
            }
        }),
{
    let ghost t = template@;
    let ghost vv = vars_view(vars@);
    let len = template.unicode_len();
    let mut out: Vec<char> = Vec::new();
    let mut bad: Option<String> = None;
    let mut i: usize = 0;
    while i < len
        invariant
            t == template@,
            vv == vars_view(vars@),
            len == t.len(),
            i <= len,
            ({
                let (o0, b0) = filled_from(t, vv, 0);
                let (oi, bi) = filled_from(t, vv, i as int);
                &&& o0 == out@ + oi
                &&& b0 == (if bi is Some { bi } else {
                    match bad {
                        Some(k) => Some(k@),
                        None => None,
                    }
                })
            }),
        decreases len - i,
    {
        match var_end(template, len, i) {
            Some(j) => {
                let key = template.substring_char(i + 2, j).to_owned();
                match find_var(vars, &key) {
                    Some(v) => {
                        push_chars(&mut out, v.as_str());
                    },
                    None => {
                        bad = Some(key);
                    },
                }
                i = j + 1;
            },
            None => {
                out.push(template.get_char(i));
                i = i + 1;
            },
        }
    }
    match bad {
        Some(k) => {
            let mut msg: Vec<char> = Vec::new();
            push_chars(&mut msg, "Invalid key (");
            push_chars(&mut msg, k.as_str());
            push_chars(&mut msg, ") in pattern");
            proof {
                reveal_strlit("Invalid key (");
                reveal_strlit(") in pattern");
                assert(msg@ =~= invalid_key_message(k@));
            }
            Err(string_of_chars(msg))
        },
        None => Ok(string_of_chars(out)),
    }
}

} // verus!
