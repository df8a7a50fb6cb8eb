//! Recognising the search-index database files in a directory walk.
use vstd::prelude::*;
use crate::codec::chars_of;

verus! {

/// The last index of `c` among the first `n` characters of `s`.
pub open spec fn last_index_of(s: Seq<char>, c: char, n: int) -> Option<int>
    decreases n,
{
    if n <= 0 {
        None
    } else if s[n - 1] == c {
        Some(n - 1)
    } else {
        last_index_of(s, c, n - 1)
    }
}

/// The stem and extension of a file name, split at its last dot; a name
/// without a dot, or whose only dot leads it, has no extension.
pub open spec fn stem_and_extension(name: Seq<char>) -> (Seq<char>, Option<Seq<char>>) {
    match last_index_of(name, '.', name.len() as int) {
        Some(i) => if i == 0 {
            (name, None)
        } else {
            (name.subrange(0, i), Some(name.subrange(i + 1, name.len() as int)))
        },
        None => (name, None),
    }
}

/// Whether character `a` is `lower` (a lower-case ASCII letter or another
/// character) regardless of ASCII case.
pub open spec fn ascii_same(a: char, lower: char) -> bool {
    a == lower || ('a' <= lower <= 'z' && a as u32 + 32 == lower as u32)
}

/// Whether `s` starts with `p` regardless of ASCII case (`p` in lower case).
pub open spec fn ascii_prefix(s: Seq<char>, p: Seq<char>) -> bool {
    p.len() <= s.len() && forall|i: int| 0 <= i < p.len() ==> ascii_same(#[trigger] s[i], p[i])
}

/// Whether `s` is `p` regardless of ASCII case (`p` in lower case).
pub open spec fn ascii_equal(s: Seq<char>, p: Seq<char>) -> bool {
    s.len() == p.len() && ascii_prefix(s, p)
}

/// Whether a file name is that of a search-index database: stem `windows`
/// or starting with `s-1-`, and extension `edb` or `db`, in any ASCII case.
pub open spec fn is_database_name(name: Seq<char>) -> bool {
    let (stem, ext) = stem_and_extension(name);
    &&& (ascii_equal(stem, "windows"@) || ascii_prefix(stem, "s-1-"@))
    &&& (ext matches Some(e) && (ascii_equal(e, "edb"@) || ascii_equal(e, "db"@)))
}

fn ascii_same_exec(a: char, lower: char) -> (r: bool)
    ensures
        r == ascii_same(a, lower),
{
    a == lower || ('a' <= lower && lower <= 'z' && (a as u32) + 32 == lower as u32)
}

/// Whether `s[from..from + p.len()]` is `p` regardless of ASCII case.
fn ascii_prefix_at(s: &Vec<char>, from: usize, to: usize, p: &str) -> (r: bool)
    requires
        from <= to <= s@.len(),
    ensures
        r == ascii_prefix(s@.subrange(from as int, to as int), p@),
{
    let pv = chars_of(p);
    if pv.len() > to - from {
        return false;
    }
    let mut i: usize = 0;
    while i < pv.len()
        invariant
            pv@ == p@,
            from <= to <= s@.len(),
            pv@.len() <= to - from,
            i <= pv@.len(),
            forall|k: int| 0 <= k < i ==> ascii_same(s@[from + k], pv@[k]),
        decreases pv@.len() - i,
    {
        if !ascii_same_exec(s[from + i], pv[i]) {
            proof {
                assert(s@.subrange(from as int, to as int)[i as int] == s@[from + i]);
            }
            return false;
        }
        i = i + 1;
    }
    proof {
        let sub = s@.subrange(from as int, to as int);
        assert forall|k: int| 0 <= k < p@.len() implies ascii_same(#[trigger] sub[k], p@[k]) by {
            assert(sub[k] == s@[from + k]);
        }
    }
    true
}

/// Whether a file name is that of a search-index database (`Windows.edb`,
/// `Windows.db`, or a per-user `S-1-...` database), in any ASCII case.
pub fn is_valid_file(file_name: &str) -> (r: bool)
    ensures
        r == is_database_name(file_name@),
{
    let v = chars_of(file_name);
    let n = v.len();
    let mut k: usize = n;
    while k > 0 && v[k - 1] != '.'
        invariant
            k <= n == v@.len(),
            last_index_of(v@, '.', n as int) == last_index_of(v@, '.', k as int),
        decreases k,
    {
        k = k - 1;
    }
    proof {
        assert(v@.subrange(0, n as int) =~= v@);
    }
    if k <= 1 {
        return false;
    }
    let dot = k - 1;
    let name_ok = (dot == 7 && ascii_prefix_at(&v, 0, dot, "windows")) || ascii_prefix_at(&v, 0, dot, "s-1-");
    let ext_ok = (n - k == 3 && ascii_prefix_at(&v, k, n, "edb")) || (n - k == 2
        && ascii_prefix_at(&v, k, n, "db"));
    proof {
        reveal_strlit("windows");
        reveal_strlit("edb");
        reveal_strlit("db");
    }
    name_ok && ext_ok
}

} // verus!
