//! POSIX path syntax on strings: `/` is the only separator, and Windows
//! separators and prefixes are not interpreted.
//!
//! The model follows the component rules of the standard library's `Path`:
//! repeated separators and `.` components that are not at the start of the
//! path are ignored, a leading `/` is the root, and `..` is never a file name.
use vstd::prelude::*;
use crate::text::{chars_of, push_char};

verus! {

/// A path with its trailing separators and trailing `.` components removed;
/// the root `/` and a leading `.` are kept.
pub open spec fn trim_end(s: Seq<char>) -> Seq<char>
    decreases s.len(),
{
    if s.len() > 1 && s.last() == '/' {
        trim_end(s.drop_last())
    } else if s.len() >= 2 && s.last() == '.' && s[s.len() - 2] == '/' {
        trim_end(s.drop_last())
    } else {
        s
    }
}

/// The index just after the last separator of `s`, or 0 when it has none.
pub open spec fn name_start(s: Seq<char>) -> int
    decreases s.len(),
{
    if s.len() == 0 {
        0
    } else if s.last() == '/' {
        s.len() as int
    } else {
        name_start(s.drop_last())
    }
}

/// The text of the last component of a path.
pub open spec fn final_component(p: Seq<char>) -> Seq<char> {
    let t = trim_end(p);
    t.skip(name_start(t))
}

/// `Path::file_name`: the last component when it is a normal name.
pub open spec fn spec_file_name(p: Seq<char>) -> Option<Seq<char>> {
    let c = final_component(p);
    if c.len() == 0 || c == seq!['.'] || c == seq!['.', '.'] {
        None
    } else {
        Some(c)
    }
}

/// The index of the last `.` in `s`, or -1 when it has none.
pub open spec fn last_dot(s: Seq<char>) -> int
    decreases s.len(),
{
    if s.len() == 0 {
        -1
    } else if s.last() == '.' {
        s.len() - 1
    } else {
        last_dot(s.drop_last())
    }
}

/// `Path::extension` of a file name: the text after its last `.`, unless the
/// name has no `.`, or its only `.` is its first character, or it is `..`.
pub open spec fn spec_extension(name: Seq<char>) -> Option<Seq<char>> {
    let d = last_dot(name);
    if name == seq!['.', '.'] || d <= 0 {
        None
    } else {
        Some(name.skip(d + 1))
    }
}

/// `Path::extension` of a whole path.
pub open spec fn spec_path_extension(p: Seq<char>) -> Option<Seq<char>> {
    match spec_file_name(p) {
        Some(name) => spec_extension(name),
        None => None,
    }
}

/// `Path::parent`: the path without its last component, or `None` for the
/// root and for the empty path.
pub open spec fn spec_parent(p: Seq<char>) -> Option<Seq<char>> {
    let t = trim_end(p);
    if t.len() == 0 || t == seq!['/'] {
        None
    } else {
        Some(trim_end(t.take(name_start(t))))
    }
}

/// `PathBuf::join`: an absolute `part` replaces `base`; otherwise `part` is
/// appended, with a separator when `base` is non-empty and lacks one at its end.
pub open spec fn spec_join(base: Seq<char>, part: Seq<char>) -> Seq<char> {
    if part.len() > 0 && part[0] == '/' {
        part
    } else if base.len() > 0 && base.last() != '/' {
        base + seq!['/'] + part
    } else {
        base + part
    }
}

/// A name that `join` appends as one normal final component.
pub open spec fn is_plain_name(n: Seq<char>) -> bool {
    &&& n.len() > 0
    &&& forall|i: int| 0 <= i < n.len() ==> n[i] != '/'
    &&& n != seq!['.']
    &&& n != seq!['.', '.']
}

/// Trimming is idempotent.
pub proof fn lemma_trim_end_idempotent(s: Seq<char>)
    ensures
        trim_end(trim_end(s)) == trim_end(s),
    decreases s.len(),
{
    if (s.len() > 1 && s.last() == '/') || (s.len() >= 2 && s.last() == '.' && s[s.len() - 2]
        == '/') {
        lemma_trim_end_idempotent(s.drop_last());
    }
}

proof fn lemma_name_start_of_plain_suffix(pre: Seq<char>, n: Seq<char>)
    requires
        pre.len() == 0 || pre.last() == '/',
        forall|i: int| 0 <= i < n.len() ==> n[i] != '/',
    ensures
        name_start(pre + n) == pre.len(),
    decreases n.len(),
{
    if n.len() == 0 {
        assert(pre + n =~= pre);
    } else {
        assert((pre + n).drop_last() =~= pre + n.drop_last());
        assert((pre + n).last() == n.last());
        lemma_name_start_of_plain_suffix(pre, n.drop_last());
    }
}

/// Joining a plain name onto any base gives a path whose file name is that
/// name and whose parent is the (trimmed) base.
pub proof fn lemma_join_plain_name(b: Seq<char>, n: Seq<char>)
    requires
        is_plain_name(n),
    ensures
        spec_file_name(spec_join(b, n)) == Some(n),
        spec_parent(spec_join(b, n)) == Some(trim_end(b)),
        trim_end(spec_join(b, n)) == spec_join(b, n),
{
    let pre = if b.len() > 0 && b.last() != '/' {
        b + seq!['/']
    } else {
        b
    };
    let j = spec_join(b, n);
    assert(j =~= pre + n);
    assert(j.last() == n.last());
    assert(n.last() != '/');
    if n.last() == '.' {
        if n.len() == 1 {
            assert(n =~= seq!['.']);
        }
        assert(j[j.len() - 2] == n[n.len() - 2]);
    }
    assert(trim_end(j) == j);
    lemma_name_start_of_plain_suffix(pre, n);
    assert(j.skip(pre.len() as int) =~= n);
    assert(final_component(j) == n);
    if j == seq!['/'] {
        assert(j.last() == '/');
    }
    assert(j.take(pre.len() as int) =~= pre);
    if b.len() > 0 && b.last() != '/' {
        assert(pre.drop_last() =~= b);
        assert(trim_end(pre) == trim_end(b));
    }
}

/// The view of an optional string.
pub open spec fn opt_view(o: Option<String>) -> Option<Seq<char>> {
    match o {
        Some(s) => Some(s@),
        None => None,
    }
}

/// The length of `trim_end` of `s[..n]`.
pub(crate) fn trimmed_len(s: &Vec<char>, n: usize) -> (res: usize)
    requires
        n <= s.len(),
    ensures
        res <= n,
        s@.take(res as int) == trim_end(s@.take(n as int)),
{
    let mut k = n;
    while (k > 1 && s[k - 1] == '/') || (k >= 2 && s[k - 1] == '.' && s[k - 2] == '/')
        invariant
            k <= n <= s.len(),
            trim_end(s@.take(k as int)) == trim_end(s@.take(n as int)),
        decreases k,
    {
        assert(s@.take(k as int).drop_last() =~= s@.take(k - 1));
        k = k - 1;
    }
    k
}

/// `name_start` of `s[..n]`.
pub(crate) fn name_start_of(s: &Vec<char>, n: usize) -> (res: usize)
    requires
        n <= s.len(),
    ensures
        res <= n,
        res == name_start(s@.take(n as int)),
        forall|i: int| res <= i < n ==> s@[i] != '/',
{
    let mut k = n;
    while k > 0 && s[k - 1] != '/'
        invariant
            k <= n <= s.len(),
            name_start(s@.take(k as int)) == name_start(s@.take(n as int)),
            forall|i: int| k <= i < n ==> s@[i] != '/',
        decreases k,
    {
        assert(s@.take(k as int).drop_last() =~= s@.take(k - 1));
        k = k - 1;
    }
    k
}

/// The index of the last `.` in `s[lo..hi]`, if any.
pub(crate) fn last_dot_in(s: &Vec<char>, lo: usize, hi: usize) -> (res: Option<usize>)
    requires
        lo <= hi <= s.len(),
    ensures
        last_dot(s@.subrange(lo as int, hi as int)) == match res {
            Some(d) => d - lo,
            None => -1,
        },
        res matches Some(d) ==> lo <= d < hi,
{
    let mut k = hi;
    while k > lo && s[k - 1] != '.'
        invariant
            lo <= k <= hi <= s.len(),
            last_dot(s@.subrange(lo as int, k as int)) == last_dot(s@.subrange(lo as int, hi as int)),
        decreases k,
    {
        assert(s@.subrange(lo as int, k as int).drop_last() =~= s@.subrange(lo as int, k - 1));
        k = k - 1;
    }
    if k > lo {
        Some(k - 1)
    } else {
        None
    }
}

/// A new string holding `s[lo..hi]`.
pub(crate) fn string_of_range(s: &Vec<char>, lo: usize, hi: usize) -> (res: String)
    requires
        lo <= hi <= s.len(),
    ensures
        res@ == s@.subrange(lo as int, hi as int),
{
    let mut res = String::new();
    let mut i = lo;
    while i < hi
        invariant
            lo <= i <= hi <= s.len(),
            res@ == s@.subrange(lo as int, i as int),
        decreases hi - i,
    {
        push_char(&mut res, s[i]);
        assert(s@.subrange(lo as int, i + 1) =~= s@.subrange(lo as int, i as int).push(s@[i as int]));
        i = i + 1;
    }
    res
}

/// The bounds `[start, end)` of the final component of `s`, with
/// `s[..end] == trim_end(s)`.
pub(crate) fn final_component_bounds(s: &Vec<char>) -> (res: (usize, usize))
    ensures
        res.0 <= res.1 <= s.len(),
        s@.take(res.1 as int) == trim_end(s@),
        res.0 == name_start(trim_end(s@)),
        s@.subrange(res.0 as int, res.1 as int) == final_component(s@),
{
    let end = trimmed_len(s, s.len());
    assert(s@.take(s.len() as int) =~= s@);
    let start = name_start_of(s, end);
    proof {
        let t = s@.take(end as int);
        assert(t.skip(start as int) =~= s@.subrange(start as int, end as int));
    }
    (start, end)
}

/// Whether `s[lo..hi]` is `.` or `..`.
pub(crate) fn is_dot_or_dot_dot(s: &Vec<char>, lo: usize, hi: usize) -> (res: bool)
    requires
        lo <= hi <= s.len(),
    ensures
        res == (s@.subrange(lo as int, hi as int) == seq!['.'] || s@.subrange(lo as int, hi as int)
            == seq!['.', '.']),
{
    let ghost r = s@.subrange(lo as int, hi as int);
    if hi - lo == 1 {
        if s[lo] == '.' {
            assert(r =~= seq!['.']);
            true
        } else {
            assert(r[0] != seq!['.'][0]);
            false
        }
    } else if hi - lo == 2 {
        if s[lo] == '.' && s[lo + 1] == '.' {
            assert(r =~= seq!['.', '.']);
            true
        } else {
            assert(r[0] != seq!['.', '.'][0] || r[1] != seq!['.', '.'][1]);
            false
        }
    } else {
        assert(r.len() != seq!['.'].len() && r.len() != seq!['.', '.'].len());
        false
    }
}

/// `Path::file_name` on a string path.
pub fn file_name(path: &str) -> (res: Option<String>)
    ensures
        opt_view(res) == spec_file_name(path@),
{
    let s = chars_of(path);
    let (start, end) = final_component_bounds(&s);
    if start == end || is_dot_or_dot_dot(&s, start, end) {
        None
    } else {
        Some(string_of_range(&s, start, end))
    }
}

/// `Path::extension` of a file name.
pub fn extension(name: &str) -> (res: Option<String>)
    ensures
        opt_view(res) == spec_extension(name@),
{
    let s = chars_of(name);
    assert(s@.subrange(0, s.len() as int) =~= s@);
    let is_dotdot = is_dot_or_dot_dot(&s, 0, s.len());
    match last_dot_in(&s, 0, s.len()) {
        Some(d) => {
            if is_dotdot || d == 0 {
                None
            } else {
                let r = string_of_range(&s, d + 1, s.len());
                assert(s@.skip(d + 1) =~= s@.subrange(d + 1, s.len() as int));
                Some(r)
            }
        },
        None => None,
    }
}

/// `Path::parent` on a string path.
pub fn parent(path: &str) -> (res: Option<String>)
    ensures
        opt_view(res) == spec_parent(path@),
{
    let s = chars_of(path);
    let (start, end) = final_component_bounds(&s);
    if end == 0 || (end == 1 && s[0] == '/') {
        proof {
            if end == 1 {
                assert(s@.take(1) =~= seq!['/']);
            }
        }
        None
    } else {
        proof {
            let t = s@.take(end as int);
            if t == seq!['/'] {
                assert(t.len() == 1);
            }
        }
        let k = trimmed_len(&s, start);
        proof {
            let t = s@.take(end as int);
            assert(t.take(start as int) =~= s@.take(start as int));
        }
        Some(string_of_range(&s, 0, k))
    }
}

/// `PathBuf::join` on string paths.
pub fn join(base: &str, part: &str) -> (res: String)
    ensures
        res@ == spec_join(base@, part@),
{
    let b = chars_of(base);
    let p = chars_of(part);
    if p.len() > 0 && p[0] == '/' {
        return string_of_range(&p, 0, p.len());
    }
    let mut res = string_of_range(&b, 0, b.len());
    assert(b@.subrange(0, b.len() as int) =~= b@);
    assert(p@.subrange(0, p.len() as int) =~= p@);
    if b.len() > 0 && b[b.len() - 1] != '/' {
        push_char(&mut res, '/');
    }
    res.append(part);
    res
}

/// A path given as bytes (the platform's encoding of a file-system path),
/// read as characters: each byte stands for the character with its code.
/// Path structure depends on the bytes `/` and `.` alone, so the character
/// model above applies unchanged.
pub open spec fn byte_chars(b: Seq<u8>) -> Seq<char> {
    b.map_values(|x: u8| x as char)
}

/// The bytes back from characters that stand for bytes.
pub open spec fn char_bytes(c: Seq<char>) -> Seq<u8> {
    c.map_values(|x: char| x as u8)
}

/// Reading bytes as characters loses nothing.
pub proof fn lemma_byte_chars_round_trip(b: Seq<u8>)
    ensures
        char_bytes(byte_chars(b)) == b,
{
    assert(char_bytes(byte_chars(b)) =~= b);
}

/// `Path::file_name` of a byte path.
pub open spec fn spec_file_name_bytes(p: Seq<u8>) -> Option<Seq<u8>> {
    match spec_file_name(byte_chars(p)) {
        Some(c) => Some(char_bytes(c)),
        None => None,
    }
}

/// `Path::parent` of a byte path.
pub open spec fn spec_parent_bytes(p: Seq<u8>) -> Option<Seq<u8>> {
    match spec_parent(byte_chars(p)) {
        Some(c) => Some(char_bytes(c)),
        None => None,
    }
}

/// `PathBuf::join` of byte paths.
pub open spec fn spec_join_bytes(base: Seq<u8>, part: Seq<u8>) -> Seq<u8> {
    if part.len() > 0 && part[0] == 47 {
        part
    } else if base.len() > 0 && base.last() != 47 {
        base + seq![47u8] + part
    } else {
        base + part
    }
}

/// Joining bytes is joining the characters they stand for.
pub proof fn lemma_join_bytes_chars(base: Seq<u8>, part: Seq<u8>)
    ensures
        byte_chars(spec_join_bytes(base, part)) == spec_join(byte_chars(base), byte_chars(part)),
{
    let j = spec_join_bytes(base, part);
    if part.len() > 0 && part[0] == 47 {
        assert(byte_chars(part)[0] == '/');
    } else if base.len() > 0 && base.last() != 47 {
        assert(byte_chars(base).last() == base.last() as char);
        assert(byte_chars(j) =~= byte_chars(base) + seq!['/'] + byte_chars(part));
    } else {
        if part.len() > 0 {
            assert(byte_chars(part)[0] == part[0] as char);
        }
        if base.len() > 0 {
            assert(byte_chars(base).last() == base.last() as char);
        }
        assert(byte_chars(j) =~= byte_chars(base) + byte_chars(part));
    }
}

/// `trim_end` only removes characters from the end.
pub proof fn lemma_trim_end_prefix(s: Seq<char>)
    ensures
        trim_end(s).len() <= s.len(),
        trim_end(s) == s.take(trim_end(s).len() as int),
    decreases s.len(),
{
    if (s.len() > 1 && s.last() == '/') || (s.len() >= 2 && s.last() == '.' && s[s.len() - 2]
        == '/') {
        lemma_trim_end_prefix(s.drop_last());
        assert(trim_end(s) =~= s.take(trim_end(s).len() as int));
    } else {
        assert(s.take(s.len() as int) =~= s);
    }
}

proof fn lemma_name_start_bounds(s: Seq<char>)
    ensures
        0 <= name_start(s) <= s.len(),
    decreases s.len(),
{
    if s.len() > 0 && s.last() != '/' {
        lemma_name_start_bounds(s.drop_last());
    }
}

/// The file name and the parent of a byte path are read back as the very
/// bytes they were taken from.
pub proof fn lemma_byte_path_parts(p: Seq<u8>)
    ensures
        spec_file_name(byte_chars(p)) matches Some(c) ==> byte_chars(char_bytes(c)) == c,
        spec_parent(byte_chars(p)) matches Some(c) ==> byte_chars(char_bytes(c)) == c,
{
    let s = byte_chars(p);
    let t = trim_end(s);
    lemma_trim_end_prefix(s);
    lemma_name_start_bounds(t);
    let len = t.len() as int;
    let k = name_start(t);
    assert(t =~= byte_chars(p.take(len)));
    let c = t.skip(k);
    let q = p.subrange(k, len);
    assert(c =~= byte_chars(q));
    lemma_byte_chars_round_trip(q);
    let u = t.take(k);
    assert(u =~= byte_chars(p.take(k)));
    lemma_trim_end_prefix(u);
    let v = trim_end(u);
    let r = p.take(v.len() as int);
    assert(v =~= byte_chars(r));
    lemma_byte_chars_round_trip(r);
}

pub open spec fn opt_bytes(o: Option<Vec<u8>>) -> Option<Seq<u8>> {
    match o {
        Some(v) => Some(v@),
        None => None,
    }
}

fn chars_of_bytes(b: &[u8]) -> (res: Vec<char>)
    ensures
        res@ == byte_chars(b@),
{
    let mut res: Vec<char> = Vec::new();
    let mut i: usize = 0;
    while i < b.len()
        invariant
            i <= b@.len(),
            res@ =~= byte_chars(b@.take(i as int)),
        decreases b.len() - i,
    {
        res.push(b[i] as char);
        i = i + 1;
    }
    assert(b@.take(b@.len() as int) =~= b@);
    res
}

/// A new vector holding `b[lo..hi]`.
pub(crate) fn bytes_of_range(b: &[u8], lo: usize, hi: usize) -> (res: Vec<u8>)
    requires
        lo <= hi <= b@.len(),
    ensures
        res@ == b@.subrange(lo as int, hi as int),
{
    let mut res: Vec<u8> = Vec::new();
    let mut i = lo;
    while i < hi
        invariant
            lo <= i <= hi <= b@.len(),
            res@ =~= b@.subrange(lo as int, i as int),
        decreases hi - i,
    {
        res.push(b[i]);
        i = i + 1;
    }
    res
}

proof fn lemma_byte_range(b: Seq<u8>, lo: int, hi: int)
    requires
        0 <= lo <= hi <= b.len(),
    ensures
        char_bytes(byte_chars(b).subrange(lo, hi)) == b.subrange(lo, hi),
{
    assert(byte_chars(b).subrange(lo, hi) =~= byte_chars(b.subrange(lo, hi)));
    lemma_byte_chars_round_trip(b.subrange(lo, hi));
}

/// `Path::file_name` of a byte path.
pub fn file_name_bytes(path: &[u8]) -> (res: Option<Vec<u8>>)
    ensures
        opt_bytes(res) == spec_file_name_bytes(path@),
{
    let s = chars_of_bytes(path);
    let (start, end) = final_component_bounds(&s);
    if start == end || is_dot_or_dot_dot(&s, start, end) {
        None
    } else {
        proof {
            lemma_byte_range(path@, start as int, end as int);
        }
        Some(bytes_of_range(path, start, end))
    }
}

/// `Path::parent` of a byte path.
pub fn parent_bytes(path: &[u8]) -> (res: Option<Vec<u8>>)
    ensures
        opt_bytes(res) == spec_parent_bytes(path@),
{
    let s = chars_of_bytes(path);
    let (start, end) = final_component_bounds(&s);
    if end == 0 || (end == 1 && s[0] == '/') {
        proof {
            if end == 1 {
                assert(s@.take(1) =~= seq!['/']);
            }
        }
        None
    } else {
        proof {
            let t = s@.take(end as int);
            if t == seq!['/'] {
                assert(t.len() == 1);
            }
        }
        let k = trimmed_len(&s, start);
        proof {
            let t = s@.take(end as int);
            assert(t.take(start as int) =~= s@.take(start as int));
            assert(s@.take(k as int) =~= s@.subrange(0, k as int));
            lemma_byte_range(path@, 0, k as int);
        }
        Some(bytes_of_range(path, 0, k))
    }
}

/// `PathBuf::join` of byte paths.
pub fn join_bytes(base: &[u8], part: &[u8]) -> (res: Vec<u8>)
    ensures
        res@ == spec_join_bytes(base@, part@),
{
    if part.len() > 0 && part[0] == 47 {
        return bytes_of_range(part, 0, part.len());
    }
    let mut res = bytes_of_range(base, 0, base.len());
    if base.len() > 0 && base[base.len() - 1] != 47 {
        res.push(47);
    }
    let mut i: usize = 0;
    let ghost start = res@;
    while i < part.len()
        invariant
            i <= part@.len(),
            res@ =~= start + part@.take(i as int),
        decreases part.len() - i,
    {
        res.push(part[i]);
        i = i + 1;
    }
    assert(part@.take(part@.len() as int) =~= part@);
    assert(base@.subrange(0, base@.len() as int) =~= base@);
    assert(part@.subrange(0, part@.len() as int) =~= part@);
    res
}

/// The directory a file at a byte path is written in: its parent, or `.`
/// when it has none.
pub open spec fn spec_directory_bytes(p: Seq<u8>) -> Seq<u8> {
    match spec_parent_bytes(p) {
        Some(d) => d,
        None => seq![46u8],
    }
}

/// The directory a file at the byte path `path` is written in.
pub fn directory_bytes(path: &[u8]) -> (res: Vec<u8>)
    ensures
        res@ == spec_directory_bytes(path@),
{
    match parent_bytes(path) {
        Some(d) => d,
        None => vec![46u8],
    }
}

/// Joining a name that is one plain component onto a directory gives a path
/// whose file name is that name and whose parent is the directory.
pub proof fn lemma_join_directory_plain_name(p: Seq<u8>, n: Seq<u8>)
    requires
        is_plain_name(byte_chars(n)),
    ensures
        spec_file_name_bytes(spec_join_bytes(spec_directory_bytes(p), n)) == Some(n),
        spec_parent_bytes(spec_join_bytes(spec_directory_bytes(p), n)) == Some(spec_directory_bytes(p)),
{
    let dir = spec_directory_bytes(p);
    lemma_join_bytes_chars(dir, n);
    lemma_join_plain_name(byte_chars(dir), byte_chars(n));
    lemma_byte_chars_round_trip(n);
    lemma_byte_path_parts(p);
    match spec_parent(byte_chars(p)) {
        Some(pc) => {
            lemma_byte_chars_round_trip(dir);
            let t = trim_end(byte_chars(p));
            lemma_trim_end_idempotent(t.take(name_start(t)));
        },
        None => {
            assert(byte_chars(dir) =~= seq!['.']);
        },
    }
    lemma_byte_chars_round_trip(dir);
}

/// Joining a name that is one plain component onto any base gives a path
/// whose file name is that name and whose parent is the base, when the base
/// itself ends in a plain component.
pub proof fn lemma_join_bytes_onto_plain(base: Seq<u8>, b: Seq<u8>, n: Seq<u8>)
    requires
        is_plain_name(byte_chars(b)),
        is_plain_name(byte_chars(n)),
    ensures
        spec_file_name_bytes(spec_join_bytes(spec_join_bytes(base, b), n)) == Some(n),
        spec_parent_bytes(spec_join_bytes(spec_join_bytes(base, b), n)) == Some(spec_join_bytes(base, b)),
{
    let j = spec_join_bytes(base, b);
    lemma_join_bytes_chars(base, b);
    lemma_join_plain_name(byte_chars(base), byte_chars(b));
    lemma_join_bytes_chars(j, n);
    lemma_join_plain_name(byte_chars(j), byte_chars(n));
    lemma_byte_chars_round_trip(n);
    lemma_byte_chars_round_trip(j);
}

} // verus!
