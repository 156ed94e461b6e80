//! Which paths are Markdown documents, which directories a workspace scan
//! enters, and which launch arguments open documents.
use vstd::prelude::*;
use crate::path::{
    final_component, final_component_bounds, is_dot_or_dot_dot, last_dot, last_dot_in, name_start,
    spec_file_name, spec_path_extension, trim_end,
};
use crate::path::{is_plain_name, lemma_join_plain_name, spec_join};
use crate::text::chars_of;

verus! {

/// The code of `c` after ASCII lowercasing (`A`..`Z` become `a`..`z`).
pub open spec fn lower_code(c: char) -> u32 {
    if 65 <= (c as u32) <= 90 {
        ((c as u32) + 32) as u32
    } else {
        c as u32
    }
}

/// `s` equals the lowercase ASCII `word` when compared ignoring ASCII case.
pub open spec fn ascii_ci_equals(s: Seq<char>, word: Seq<char>) -> bool {
    &&& s.len() == word.len()
    &&& forall|i: int| 0 <= i < s.len() ==> lower_code(s[i]) == word[i] as u32
}

/// The extensions of Markdown files, compared ignoring ASCII case.
pub open spec fn is_markdown_extension(e: Seq<char>) -> bool {
    ||| ascii_ci_equals(e, seq!['m', 'd'])
    ||| ascii_ci_equals(e, seq!['m', 'a', 'r', 'k', 'd', 'o', 'w', 'n'])
    ||| ascii_ci_equals(e, seq!['m', 'd', 'o', 'w', 'n'])
    ||| ascii_ci_equals(e, seq!['m', 'k', 'd'])
}

/// A path names a Markdown document when its extension is one of
/// `md`, `markdown`, `mdown`, `mkd`, in any ASCII case.
pub open spec fn spec_is_markdown(p: Seq<char>) -> bool {
    match spec_path_extension(p) {
        Some(e) => is_markdown_extension(e),
        None => false,
    }
}

/// Names of directories that a workspace scan never enters.
pub open spec fn is_skipped_dir_name(name: Seq<char>) -> bool {
    ||| name == seq!['n', 'o', 'd', 'e', '_', 'm', 'o', 'd', 'u', 'l', 'e', 's']
    ||| name == seq!['t', 'a', 'r', 'g', 'e', 't']
    ||| name == seq!['d', 'i', 's', 't']
    ||| name == seq!['b', 'u', 'i', 'l', 'd']
}

/// The root of a walk is always entered; below it, hidden directories and
/// dependency or build output directories are pruned.
pub open spec fn spec_should_visit(depth: nat, is_dir: bool, name: Seq<char>) -> bool {
    depth == 0 || !(is_dir && ((name.len() > 0 && name[0] == '.') || is_skipped_dir_name(name)))
}

/// Whether `s[lo..hi]` equals `word` ignoring ASCII case (`word` is lowercase).
fn range_ci_equals(s: &Vec<char>, lo: usize, hi: usize, word: &[char]) -> (res: bool)
    requires
        lo <= hi <= s.len(),
    ensures
        res == ascii_ci_equals(s@.subrange(lo as int, hi as int), word@),
{
    if hi - lo != word.len() {
        return false;
    }
    let mut i: usize = 0;
    while i < word.len()
        invariant
            lo <= hi <= s.len(),
            hi - lo == word@.len(),
            i <= word@.len(),
            forall|j: int| 0 <= j < i ==> lower_code(s@[lo + j]) == word@[j] as u32,
        decreases word.len() - i,
    {
        let c = s[lo + i] as u32;
        let lower: u32 = if 65 <= c && c <= 90 {
            c + 32
        } else {
            c
        };
        if lower != word[i] as u32 {
            assert(lower_code(s@.subrange(lo as int, hi as int)[i as int]) != word@[i as int] as u32);
            return false;
        }
        i = i + 1;
    }
    true
}

/// Whether `s` equals `word` exactly.
fn chars_equal(s: &Vec<char>, word: &[char]) -> (res: bool)
    ensures
        res == (s@ == word@),
{
    if s.len() != word.len() {
        return false;
    }
    let mut i: usize = 0;
    while i < s.len()
        invariant
            s@.len() == word@.len(),
            i <= s@.len(),
            forall|j: int| 0 <= j < i ==> s@[j] == word@[j],
        decreases s.len() - i,
    {
        if s[i] != word[i] {
            return false;
        }
        i = i + 1;
    }
    assert(s@ =~= word@);
    true
}

/// Whether `path` names a Markdown document, judged by its extension alone.
pub fn is_markdown(path: &str) -> (res: bool)
    ensures
        res == spec_is_markdown(path@),
{
    let s = chars_of(path);
    let (start, end) = final_component_bounds(&s);
    if start == end || is_dot_or_dot_dot(&s, start, end) {
        return false;
    }
    let ghost name = s@.subrange(start as int, end as int);
    assert(spec_file_name(path@) == Some(name));
    match last_dot_in(&s, start, end) {
        None => false,
        Some(d) => {
            if d == start {
                false
            } else {
                assert(name.skip(d - start + 1) =~= s@.subrange(d + 1, end as int));
                range_ci_equals(&s, d + 1, end, &['m', 'd'])
                    || range_ci_equals(&s, d + 1, end, &['m', 'a', 'r', 'k', 'd', 'o', 'w', 'n'])
                    || range_ci_equals(&s, d + 1, end, &['m', 'd', 'o', 'w', 'n'])
                    || range_ci_equals(&s, d + 1, end, &['m', 'k', 'd'])
            }
        },
    }
}

/// Whether a workspace walk enters the entry at `depth` named `name`.
pub fn should_visit(depth: usize, is_dir: bool, name: &str) -> (res: bool)
    ensures
        res == spec_should_visit(depth as nat, is_dir, name@),
{
    if depth == 0 {
        return true;
    }
    let s = chars_of(name);
    let hidden = s.len() > 0 && s[0] == '.';
    let skipped = chars_equal(&s, &['n', 'o', 'd', 'e', '_', 'm', 'o', 'd', 'u', 'l', 'e', 's'])
        || chars_equal(&s, &['t', 'a', 'r', 'g', 'e', 't'])
        || chars_equal(&s, &['d', 'i', 's', 't'])
        || chars_equal(&s, &['b', 'u', 'i', 'l', 'd']);
    !(is_dir && (hidden || skipped))
}

/// A command-line argument together with whether it names a regular file.
pub struct LaunchArgument {
    pub path: String,
    pub is_file: bool,
}

/// The arguments, in order, that name regular Markdown files.
pub open spec fn spec_markdown_paths(args: Seq<LaunchArgument>) -> Seq<Seq<char>>
    decreases args.len(),
{
    if args.len() == 0 {
        seq![]
    } else {
        let rest = spec_markdown_paths(args.drop_last());
        let a = args.last();
        if a.is_file && spec_is_markdown(a.path@) {
            rest.push(a.path@)
        } else {
            rest
        }
    }
}

/// The paths among the launch arguments that name regular Markdown files,
/// in the order they were given.
pub fn markdown_paths(arguments: Vec<LaunchArgument>) -> (res: Vec<String>)
    ensures
        res@.map_values(|s: String| s@) == spec_markdown_paths(arguments@),
{
    let mut res: Vec<String> = Vec::new();
    let mut i: usize = 0;
    while i < arguments.len()
        invariant
            i <= arguments@.len(),
            res@.map_values(|s: String| s@) == spec_markdown_paths(arguments@.take(i as int)),
        decreases arguments.len() - i,
    {
        let a = &arguments[i];
        assert(arguments@.take(i + 1).drop_last() =~= arguments@.take(i as int));
        if a.is_file && is_markdown(a.path.as_str()) {
            res.push(a.path.clone());
            assert(res@.map_values(|s: String| s@) =~= spec_markdown_paths(
                arguments@.take(i as int),
            ).push(a.path@));
        }
        i = i + 1;
    }
    assert(arguments@.take(arguments@.len() as int) =~= arguments@);
    res
}

/// Whether a file is a Markdown document depends only on its name, not on
/// the directory it is in.
pub proof fn lemma_markdown_judged_by_name(dir: Seq<char>, name: Seq<char>)
    requires
        is_plain_name(name),
    ensures
        spec_is_markdown(spec_join(dir, name)) == spec_is_markdown(name),
{
    lemma_join_plain_name(dir, name);
    lemma_join_plain_name(seq![], name);
    assert(spec_join(seq![], name) =~= name);
}

/// Every path handed on from the launch arguments is one of the arguments,
/// names a regular file, and is a Markdown document.
pub proof fn lemma_markdown_paths_are_markdown_files(args: Seq<LaunchArgument>)
    ensures
        forall|i: int| 0 <= i < spec_markdown_paths(args).len() ==> {
            &&& spec_is_markdown(#[trigger] spec_markdown_paths(args)[i])
            &&& exists|j: int| 0 <= j < args.len() && args[j].is_file && args[j].path@ == spec_markdown_paths(args)[i]
        },
    decreases args.len(),
{
    if args.len() > 0 {
        let rest = args.drop_last();
        lemma_markdown_paths_are_markdown_files(rest);
        let out = spec_markdown_paths(args);
        assert forall|i: int| 0 <= i < out.len() implies {
            &&& spec_is_markdown(#[trigger] out[i])
            &&& exists|j: int| 0 <= j < args.len() && args[j].is_file && args[j].path@ == out[i]
        } by {
            let r = spec_markdown_paths(rest);
            if i < r.len() {
                assert(out[i] == r[i]);
                let j = choose|j: int| 0 <= j < rest.len() && rest[j].is_file && rest[j].path@ == r[i];
                assert(args[j] == rest[j]);
            } else {
                assert(out[i] == args.last().path@);
                assert(args[args.len() - 1] == args.last());
            }
        }
    }
}

/// Filtering launch arguments distributes over concatenation.
pub proof fn lemma_markdown_paths_concat(a: Seq<LaunchArgument>, b: Seq<LaunchArgument>)
    ensures
        spec_markdown_paths(a + b) == spec_markdown_paths(a) + spec_markdown_paths(b),
    decreases b.len(),
{
    if b.len() == 0 {
        assert(a + b =~= a);
        assert(spec_markdown_paths(b) =~= Seq::<Seq<char>>::empty());
        assert(spec_markdown_paths(a) + spec_markdown_paths(b) =~= spec_markdown_paths(a));
    } else {
        assert((a + b).drop_last() =~= a + b.drop_last());
        assert((a + b).last() == b.last());
        lemma_markdown_paths_concat(a, b.drop_last());
        let x = b.last();
        if x.is_file && spec_is_markdown(x.path@) {
            assert(spec_markdown_paths(a) + spec_markdown_paths(b.drop_last()).push(x.path@) =~= (
            spec_markdown_paths(a) + spec_markdown_paths(b.drop_last())).push(x.path@));
        }
    }
}

proof fn lemma_markdown_paths_keep_all(args: Seq<LaunchArgument>)
    requires
        forall|i: int| 0 <= i < args.len() ==> (#[trigger] args[i]).is_file && spec_is_markdown(args[i].path@),
    ensures
        spec_markdown_paths(args) == args.map_values(|a: LaunchArgument| a.path@),
    decreases args.len(),
{
    if args.len() > 0 {
        let d = args.drop_last();
        assert forall|i: int| 0 <= i < d.len() implies (#[trigger] d[i]).is_file && spec_is_markdown(d[i].path@) by {
            assert(d[i] == args[i]);
        }
        lemma_markdown_paths_keep_all(d);
        assert(args[args.len() - 1] == args.last());
        assert(args.map_values(|a: LaunchArgument| a.path@) =~= d.map_values(|a: LaunchArgument| a.path@).push(
            args.last().path@,
        ));
    } else {
        assert(args.map_values(|a: LaunchArgument| a.path@) =~= Seq::<Seq<char>>::empty());
    }
}

/// Handing the kept paths in again, still naming regular files, keeps all of
/// them: the selection is idempotent.
pub proof fn lemma_markdown_paths_idempotent(args: Seq<LaunchArgument>, again: Seq<LaunchArgument>)
    requires
        again.len() == spec_markdown_paths(args).len(),
        forall|i: int| 0 <= i < again.len() ==> (#[trigger] again[i]).is_file && again[i].path@
            == spec_markdown_paths(args)[i],
    ensures
        spec_markdown_paths(again) == spec_markdown_paths(args),
{
    lemma_markdown_paths_are_markdown_files(args);
    let out = spec_markdown_paths(args);
    assert forall|i: int| 0 <= i < again.len() implies (#[trigger] again[i]).is_file && spec_is_markdown(
        again[i].path@,
    ) by {
        assert(spec_is_markdown(out[i]));
    }
    lemma_markdown_paths_keep_all(again);
    assert(again.map_values(|a: LaunchArgument| a.path@) =~= out);
}

/// `p` and `q` differ at most in the ASCII case of their letters.
pub open spec fn same_ignoring_ascii_case(p: Seq<char>, q: Seq<char>) -> bool {
    &&& p.len() == q.len()
    &&& forall|i: int| 0 <= i < p.len() ==> lower_code(p[i]) == lower_code(q[i])
}

proof fn lemma_lower_code_fixes_punctuation(c: char, d: char)
    requires
        lower_code(c) == lower_code(d),
    ensures
        c == '/' <==> d == '/',
        c == '.' <==> d == '.',
{
}

proof fn lemma_same_case_take(p: Seq<char>, q: Seq<char>, n: int)
    requires
        same_ignoring_ascii_case(p, q),
        0 <= n <= p.len(),
    ensures
        same_ignoring_ascii_case(p.take(n), q.take(n)),
{
}

proof fn lemma_same_case_trim_end(p: Seq<char>, q: Seq<char>)
    requires
        same_ignoring_ascii_case(p, q),
    ensures
        trim_end(p).len() == trim_end(q).len(),
        trim_end(p).len() <= p.len(),
        trim_end(p) == p.take(trim_end(p).len() as int),
        trim_end(q) == q.take(trim_end(q).len() as int),
    decreases p.len(),
{
    if p.len() > 1 {
        lemma_lower_code_fixes_punctuation(p.last(), q.last());
        lemma_lower_code_fixes_punctuation(p[p.len() - 2], q[q.len() - 2]);
    }
    if (p.len() > 1 && p.last() == '/') || (p.len() >= 2 && p.last() == '.' && p[p.len() - 2]
        == '/') {
        lemma_same_case_take(p, q, p.len() - 1);
        assert(p.drop_last() =~= p.take(p.len() - 1));
        assert(q.drop_last() =~= q.take(q.len() - 1));
        lemma_same_case_trim_end(p.drop_last(), q.drop_last());
        let k = trim_end(p).len() as int;
        assert(p.drop_last().take(k) =~= p.take(k));
        assert(q.drop_last().take(k) =~= q.take(k));
    } else {
        assert(p.take(p.len() as int) =~= p);
        assert(q.take(q.len() as int) =~= q);
    }
}

proof fn lemma_same_case_name_start(p: Seq<char>, q: Seq<char>)
    requires
        same_ignoring_ascii_case(p, q),
    ensures
        name_start(p) == name_start(q),
        0 <= name_start(p) <= p.len(),
    decreases p.len(),
{
    if p.len() > 0 {
        lemma_lower_code_fixes_punctuation(p.last(), q.last());
        if p.last() != '/' {
            lemma_same_case_take(p, q, p.len() - 1);
            assert(p.drop_last() =~= p.take(p.len() - 1));
            assert(q.drop_last() =~= q.take(q.len() - 1));
            lemma_same_case_name_start(p.drop_last(), q.drop_last());
        }
    }
}

proof fn lemma_same_case_last_dot(p: Seq<char>, q: Seq<char>)
    requires
        same_ignoring_ascii_case(p, q),
    ensures
        last_dot(p) == last_dot(q),
        -1 <= last_dot(p) < p.len(),
    decreases p.len(),
{
    if p.len() > 0 {
        lemma_lower_code_fixes_punctuation(p.last(), q.last());
        if p.last() != '.' {
            lemma_same_case_take(p, q, p.len() - 1);
            assert(p.drop_last() =~= p.take(p.len() - 1));
            assert(q.drop_last() =~= q.take(q.len() - 1));
            lemma_same_case_last_dot(p.drop_last(), q.drop_last());
        }
    }
}

proof fn lemma_same_case_final_component(p: Seq<char>, q: Seq<char>)
    requires
        same_ignoring_ascii_case(p, q),
    ensures
        same_ignoring_ascii_case(final_component(p), final_component(q)),
{
    lemma_same_case_trim_end(p, q);
    let k = trim_end(p).len() as int;
    lemma_same_case_take(p, q, k);
    lemma_same_case_name_start(trim_end(p), trim_end(q));
    let a = trim_end(p).skip(name_start(trim_end(p)));
    let b = trim_end(q).skip(name_start(trim_end(q)));
    assert(same_ignoring_ascii_case(a, b)) by {
        assert forall|i: int| 0 <= i < a.len() implies lower_code(a[i]) == lower_code(b[i]) by {
            assert(a[i] == trim_end(p)[name_start(trim_end(p)) + i]);
            assert(b[i] == trim_end(q)[name_start(trim_end(p)) + i]);
        }
    }
}

proof fn lemma_same_case_dots(a: Seq<char>, b: Seq<char>)
    requires
        same_ignoring_ascii_case(a, b),
    ensures
        a == seq!['.'] <==> b == seq!['.'],
        a == seq!['.', '.'] <==> b == seq!['.', '.'],
{
    if a.len() >= 1 {
        lemma_lower_code_fixes_punctuation(a[0], b[0]);
    }
    if a.len() >= 2 {
        lemma_lower_code_fixes_punctuation(a[1], b[1]);
    }
    if a.len() == 1 && a[0] == '.' {
        assert(a =~= seq!['.']);
        assert(b =~= seq!['.']);
    }
    if a.len() == 2 && a[0] == '.' && a[1] == '.' {
        assert(a =~= seq!['.', '.']);
        assert(b =~= seq!['.', '.']);
    }
    if a == seq!['.'] {
        assert(a[0] == '.');
    }
    if b == seq!['.'] {
        assert(b[0] == '.');
    }
    if a == seq!['.', '.'] {
        assert(a[0] == '.' && a[1] == '.');
    }
    if b == seq!['.', '.'] {
        assert(b[0] == '.' && b[1] == '.');
    }
}

proof fn lemma_same_case_markdown_extension(a: Seq<char>, b: Seq<char>)
    requires
        same_ignoring_ascii_case(a, b),
    ensures
        is_markdown_extension(a) == is_markdown_extension(b),
{
}

/// Recognising a Markdown document ignores ASCII case: two paths that differ
/// only in the case of their letters are both Markdown documents or neither.
pub proof fn lemma_is_markdown_ignores_ascii_case(p: Seq<char>, q: Seq<char>)
    requires
        same_ignoring_ascii_case(p, q),
    ensures
        spec_is_markdown(p) == spec_is_markdown(q),
{
    lemma_same_case_final_component(p, q);
    let a = final_component(p);
    let b = final_component(q);
    lemma_same_case_dots(a, b);
    if spec_file_name(p) is Some {
        lemma_same_case_last_dot(a, b);
        let d = last_dot(a);
        if d > 0 {
            let ea = a.skip(d + 1);
            let eb = b.skip(d + 1);
            assert(same_ignoring_ascii_case(ea, eb)) by {
                assert forall|i: int| 0 <= i < ea.len() implies lower_code(ea[i]) == lower_code(
                    eb[i],
                ) by {
                    assert(ea[i] == a[d + 1 + i]);
                    assert(eb[i] == b[d + 1 + i]);
                }
            }
            lemma_same_case_markdown_extension(ea, eb);
        }
    }
}

/// `e` spells the word whose lowercase letters are `lower` and uppercase
/// letters are `upper`, each letter in either case.
pub open spec fn spells_either_case(e: Seq<char>, lower: Seq<char>, upper: Seq<char>) -> bool {
    &&& e.len() == lower.len()
    &&& forall|i: int| 0 <= i < e.len() ==> e[i] == lower[i] || e[i] == upper[i]
}

proof fn lemma_spells_word(e: Seq<char>, lower: Seq<char>, upper: Seq<char>)
    requires
        lower.len() == upper.len(),
        forall|i: int|
            0 <= i < lower.len() ==> 97 <= (#[trigger] lower[i] as u32) <= 122 && upper[i] as u32
                == lower[i] as u32 - 32,
    ensures
        ascii_ci_equals(e, lower) <==> spells_either_case(e, lower, upper),
{
    if ascii_ci_equals(e, lower) {
        assert forall|i: int| 0 <= i < e.len() implies e[i] == lower[i] || e[i] == upper[i] by {
            assert(lower_code(e[i]) == lower[i] as u32);
            vstd::utf8::char_u32_cast(e[i], e[i] as u32);
            vstd::utf8::char_u32_cast(upper[i], upper[i] as u32);
            vstd::utf8::char_u32_cast(lower[i], lower[i] as u32);
        }
    }
    if spells_either_case(e, lower, upper) {
        assert forall|i: int| 0 <= i < e.len() implies lower_code(e[i]) == lower[i] as u32 by {
            assert(97 <= (lower[i] as u32) <= 122);
        }
    }
}

/// A path is a Markdown document exactly when its extension is `md`,
/// `markdown`, `mdown` or `mkd`, each letter in either case; any other
/// extension (such as `html` or `txt`), or none, is not.
pub proof fn lemma_markdown_extensions(p: Seq<char>)
    ensures
        spec_is_markdown(p) <==> (spec_path_extension(p) matches Some(e) && {
            ||| spells_either_case(e, "md"@, "MD"@)
            ||| spells_either_case(e, "markdown"@, "MARKDOWN"@)
            ||| spells_either_case(e, "mdown"@, "MDOWN"@)
            ||| spells_either_case(e, "mkd"@, "MKD"@)
        }),
{
    reveal_strlit("md");
    reveal_strlit("MD");
    reveal_strlit("markdown");
    reveal_strlit("MARKDOWN");
    reveal_strlit("mdown");
    reveal_strlit("MDOWN");
    reveal_strlit("mkd");
    reveal_strlit("MKD");
    if let Some(e) = spec_path_extension(p) {
        assert("md"@ =~= seq!['m', 'd']);
        assert("markdown"@ =~= seq!['m', 'a', 'r', 'k', 'd', 'o', 'w', 'n']);
        assert("mdown"@ =~= seq!['m', 'd', 'o', 'w', 'n']);
        assert("mkd"@ =~= seq!['m', 'k', 'd']);
        lemma_spells_word(e, "md"@, "MD"@);
        lemma_spells_word(e, "markdown"@, "MARKDOWN"@);
        lemma_spells_word(e, "mdown"@, "MDOWN"@);
        lemma_spells_word(e, "mkd"@, "MKD"@);
    }
}

/// Below the root, a walk skips a directory exactly when its name starts
/// with `.` or is `node_modules`, `target`, `dist` or `build`; it enters
/// every other directory (such as `_posts`), every file, and the root.
pub proof fn lemma_visit_prunes_exactly(depth: nat, is_dir: bool, name: Seq<char>)
    ensures
        spec_should_visit(depth, is_dir, name) <==> {
            ||| depth == 0
            ||| !is_dir
            ||| {
                &&& !seq!['.'].is_prefix_of(name)
                &&& name != "node_modules"@
                &&& name != "target"@
                &&& name != "dist"@
                &&& name != "build"@
            }
        },
{
    reveal_strlit("node_modules");
    reveal_strlit("target");
    reveal_strlit("dist");
    reveal_strlit("build");
    assert("node_modules"@ =~= seq!['n', 'o', 'd', 'e', '_', 'm', 'o', 'd', 'u', 'l', 'e', 's']);
    assert("target"@ =~= seq!['t', 'a', 'r', 'g', 'e', 't']);
    assert("dist"@ =~= seq!['d', 'i', 's', 't']);
    assert("build"@ =~= seq!['b', 'u', 'i', 'l', 'd']);
    if name.len() > 0 && name[0] == '.' {
        assert(seq!['.'].is_prefix_of(name)) by {
            assert(name.take(1) =~= seq!['.']);
        }
    }
    if seq!['.'].is_prefix_of(name) {
        assert(name.take(1)[0] == name[0]);
    }
}

} // verus!
