//! The section scanner: walks the lines of a manifest, tracks whether the
//! `[features]` section is active, and collects the set of declared feature
//! keys found inside it.

use vstd::prelude::*;

use crate::text::{
    contains_str, find_char, find_char_str, is_wspace, str_eq, strip_comment, strip_comment_str,
    trim, trim_str, views,
};

verus! {

/// The header line that opens the target section.
pub open spec fn target_header() -> Seq<char> {
    "[features]"@
}

/// One layer of surrounding double quotes removed, when both are present.
pub open spec fn strip_quotes(k: Seq<char>) -> Seq<char> {
    if k.len() >= 2 && k[0] == '"' && k[k.len() - 1] == '"' {
        k.subrange(1, k.len() - 1)
    } else {
        k
    }
}

/// A cleaned line is a section header when it starts with `[`.
pub open spec fn is_header(t: Seq<char>) -> bool {
    t.len() > 0 && t[0] == '['
}

/// The comment-stripped, whitespace-trimmed content of a raw line.
pub open spec fn clean(l: Seq<char>) -> Seq<char> {
    trim(strip_comment(l))
}

/// The key declared by a cleaned non-header line, if any: the text left of
/// the first `=`, trimmed and quote-stripped, provided it is non-empty.
pub open spec fn key_of_line(t: Seq<char>) -> Option<Seq<char>> {
    match find_char(t, '=') {
        None => None,
        Some(i) => {
            let k = strip_quotes(trim(t.take(i)));
            if k.len() > 0 {
                Some(k)
            } else {
                None
            }
        },
    }
}

/// How a cleaned line changes the "inside the target section" flag.
pub open spec fn step_inside(t: Seq<char>, inside: bool) -> bool {
    if is_header(t) {
        t == target_header()
    } else {
        inside
    }
}

/// The key a cleaned line contributes, given the current flag: header lines
/// and lines outside the target section contribute nothing.
pub open spec fn line_key(t: Seq<char>, inside: bool) -> Option<Seq<char>> {
    if is_header(t) || !inside {
        None
    } else {
        key_of_line(t)
    }
}

/// The set of keys declared from line `i` on, entering that line with the
/// given flag.
pub open spec fn scan_from(lines: Seq<Seq<char>>, i: int, inside: bool) -> Set<Seq<char>>
    decreases lines.len() - i,
{
    if i < 0 || i >= lines.len() {
        Set::empty()
    } else {
        let t = clean(lines[i]);
        let rest = scan_from(lines, i + 1, step_inside(t, inside));
        match line_key(t, inside) {
            Some(k) => rest.insert(k),
            None => rest,
        }
    }
}

/// The set of feature keys declared in the `[features]` section of the given
/// lines: the section scanner's result.
pub open spec fn declared_keys(lines: Seq<Seq<char>>) -> Set<Seq<char>> {
    scan_from(lines, 0, false)
}

/// Extract the declared key from a cleaned line, if it declares one.
fn extract_key(t: &str) -> (r: Option<String>)
    ensures
        match r {
            Some(k) => key_of_line(t@) == Some(k@),
            None => key_of_line(t@) is None,
        },
{
    match find_char_str(t, '=') {
        None => None,
        Some(i) => {
            let before = t.substring_char(0, i);
            let k1 = trim_str(before);
            proof {
                assert(before@ == t@.take(i as int));
            }
            let k1len = k1.unicode_len();
            let k = if k1len >= 2 && k1.get_char(0) == '"' && k1.get_char(k1len - 1) == '"' {
                k1.substring_char(1, k1len - 1)
            } else {
                k1
            };
            proof {
                assert(k@ == strip_quotes(trim(t@.take(i as int))));
            }
            if k.unicode_len() == 0 {
                None
            } else {
                Some(k.to_owned())
            }
        },
    }
}

/// Scan the given manifest lines and return the set of feature keys declared
/// in the `[features]` section, each exactly once.
pub fn parse_feature_keys_from_lines(lines: &Vec<String>) -> (r: Vec<String>)
    ensures
        views(r@).to_set() == declared_keys(views(lines@)),
        views(r@).no_duplicates(),
{
    let ghost ls = views(lines@);
    let mut inside = false;
    let mut keys: Vec<String> = Vec::new();
    let n = lines.len();
    let mut i: usize = 0;
    while i < n
        invariant
            n == lines@.len(),
            ls == views(lines@),
            0 <= i <= n,
            views(keys@).no_duplicates(),
            views(keys@).to_set().union(scan_from(ls, i as int, inside)) == declared_keys(ls),
        decreases n - i,
    {
        let line = &lines[i];
        let t = trim_str(strip_comment_str(line.as_str()));
        proof {
            assert(ls[i as int] == line@);
            assert(t@ == clean(ls[i as int]));
        }
        let ghost old_inside = inside;
        let ghost old_keys_set = views(keys@).to_set();
        let tlen = t.unicode_len();
        if tlen > 0 && t.get_char(0) == '[' {
            inside = str_eq(t, "[features]");
            proof {
                assert(is_header(t@));
                assert(inside == step_inside(t@, old_inside));
                assert(line_key(t@, old_inside) is None);
            }
        } else {
            proof {
                assert(!is_header(t@));
                assert(inside == step_inside(t@, old_inside));
            }
            if inside {
                match extract_key(t) {
                    Some(k) => {
                        if !contains_str(&keys, k.as_str()) {
                            let ghost prev = keys@;
                            keys.push(k);
                            proof {
                                broadcast use vstd::seq_lib::lemma_seq_contains_after_push;

                                assert(views(prev.push(k)) =~= views(prev).push(k@));
                                assert(views(keys@).to_set() =~= old_keys_set.insert(k@));
                            }
                        }
                    },
                    None => {},
                }
            }
        }
        proof {
            let stepped = scan_from(ls, i as int, old_inside);
            let rest = scan_from(ls, i + 1, step_inside(t@, old_inside));
            match line_key(t@, old_inside) {
                Some(k) => {
                    assert(stepped == rest.insert(k));
                    assert(views(keys@).to_set() =~= old_keys_set.insert(k));
                    assert(views(keys@).to_set().union(rest) =~= old_keys_set.union(stepped));
                },
                None => {
                    assert(stepped == rest);
                },
            }
        }
        i += 1;
    }
    proof {
        assert(scan_from(ls, n as int, inside) =~= Set::<Seq<char>>::empty());
        assert(views(keys@).to_set().union(Set::empty()) =~= views(keys@).to_set());
    }
    keys
}

/// The scanner never enters the target section when no cleaned line equals
/// its header, so from any starting line it collects nothing.
proof fn lemma_scan_outside_stays_empty(lines: Seq<Seq<char>>, i: int)
    requires
        forall|j: int| 0 <= j < lines.len() ==> clean(lines[j]) != target_header(),
    ensures
        scan_from(lines, i, false) == Set::<Seq<char>>::empty(),
    decreases lines.len() - i,
{
    if i < 0 || i >= lines.len() {
    } else {
        let t = clean(lines[i]);
        assert(step_inside(t, false) == false);
        lemma_scan_outside_stays_empty(lines, i + 1);
        assert(line_key(t, false) is None);
    }
}

/// When no line's comment-stripped, trimmed content equals the target
/// section header, the scanner declares no key at all.
pub proof fn lemma_no_section_no_keys(lines: Seq<Seq<char>>)
    requires
        forall|j: int| 0 <= j < lines.len() ==> clean(lines[j]) != target_header(),
    ensures
        declared_keys(lines) == Set::<Seq<char>>::empty(),
{
    lemma_scan_outside_stays_empty(lines, 0);
}

/// Whether the scanner is inside the target section when it reaches line
/// `i`: the flag left by the lines before it.
pub open spec fn inside_before(lines: Seq<Seq<char>>, i: int) -> bool
    decreases i,
{
    if i <= 0 {
        false
    } else {
        step_inside(clean(lines[i - 1]), inside_before(lines, i - 1))
    }
}

/// A key contributed by line `i` stays in the scan that continues from any
/// earlier line with the matching flag.
proof fn lemma_scan_collects(lines: Seq<Seq<char>>, j: int, i: int, k: Seq<char>)
    requires
        0 <= j <= i < lines.len(),
        line_key(clean(lines[i]), inside_before(lines, i)) == Some(k),
    ensures
        scan_from(lines, j, inside_before(lines, j)).contains(k),
    decreases i - j,
{
    if j == i {
        let rest = scan_from(lines, i + 1, step_inside(clean(lines[i]), inside_before(lines, i)));
        assert(scan_from(lines, i, inside_before(lines, i)) == rest.insert(k));
    } else {
        lemma_scan_collects(lines, j + 1, i, k);
        assert(inside_before(lines, j + 1) == step_inside(clean(lines[j]), inside_before(lines, j)));
        let rest = scan_from(lines, j + 1, inside_before(lines, j + 1));
        assert(rest.contains(k));
        match line_key(clean(lines[j]), inside_before(lines, j)) {
            Some(k2) => {
                assert(scan_from(lines, j, inside_before(lines, j)) == rest.insert(k2));
            },
            None => {
                assert(scan_from(lines, j, inside_before(lines, j)) == rest);
            },
        }
    }
}

/// A well-formed declaration line inside the active section contributes
/// exactly the trimmed, quote-stripped text left of its first `=` to the
/// declared set: `e` is the position of that `=` in the cleaned line.
pub proof fn lemma_declared_key_exact(lines: Seq<Seq<char>>, i: int, e: int)
    requires
        0 <= i < lines.len(),
        inside_before(lines, i),
        !is_header(clean(lines[i])),
        find_char(clean(lines[i]), '=') == Some(e),
        strip_quotes(trim(clean(lines[i]).take(e))).len() > 0,
    ensures
        declared_keys(lines).contains(strip_quotes(trim(clean(lines[i]).take(e)))),
{
    let k = strip_quotes(trim(clean(lines[i]).take(e)));
    assert(line_key(clean(lines[i]), inside_before(lines, i)) == Some(k));
    lemma_scan_collects(lines, 0, i, k);
    assert(inside_before(lines, 0) == false);
}

/// The flag that the scanner carries out of the lines from `i` on, entering
/// them with `fl`.
pub open spec fn flag_from(lines: Seq<Seq<char>>, i: int, fl: bool) -> bool
    decreases lines.len() - i,
{
    if i < 0 || i >= lines.len() {
        fl
    } else {
        flag_from(lines, i + 1, step_inside(clean(lines[i]), fl))
    }
}

/// Whether the scanner is inside the target section after all lines.
pub open spec fn inside_after(lines: Seq<Seq<char>>) -> bool {
    flag_from(lines, 0, false)
}

/// The two readings of the scanner's flag agree: carrying the flag before
/// line `i` through the remaining lines gives the flag after all lines.
pub proof fn lemma_flag_readings_agree(lines: Seq<Seq<char>>, i: int)
    requires
        0 <= i <= lines.len(),
    ensures
        flag_from(lines, i, inside_before(lines, i)) == inside_after(lines),
    decreases i,
{
    if i == 0 {
    } else {
        assert(inside_before(lines, i) == step_inside(
            clean(lines[i - 1]),
            inside_before(lines, i - 1),
        ));
        assert(flag_from(lines, i - 1, inside_before(lines, i - 1)) == flag_from(
            lines,
            i,
            inside_before(lines, i),
        ));
        lemma_flag_readings_agree(lines, i - 1);
    }
}

/// Appending one line extends the scan by at most that line's key, read
/// under the flag that the earlier lines leave behind.
proof fn lemma_scan_push(lines: Seq<Seq<char>>, l: Seq<char>, i: int, fl: bool)
    requires
        0 <= i <= lines.len(),
    ensures
        scan_from(lines.push(l), i, fl) == match line_key(clean(l), flag_from(lines, i, fl)) {
            Some(k) => scan_from(lines, i, fl).insert(k),
            None => scan_from(lines, i, fl),
        },
    decreases lines.len() - i,
{
    let p = lines.push(l);
    if i == lines.len() {
        assert(p[i] == l);
        assert(scan_from(p, i + 1, step_inside(clean(l), fl)) == Set::<Seq<char>>::empty());
        assert(scan_from(lines, i, fl) == Set::<Seq<char>>::empty());
    } else {
        assert(p[i] == lines[i]);
        let t = clean(lines[i]);
        let stepped = step_inside(t, fl);
        lemma_scan_push(lines, l, i + 1, stepped);
        match line_key(clean(l), flag_from(lines, i, fl)) {
            Some(k) => {
                match line_key(t, fl) {
                    Some(k2) => {
                        assert(scan_from(p, i, fl) =~= scan_from(lines, i, fl).insert(k));
                    },
                    None => {
                        assert(scan_from(p, i, fl) =~= scan_from(lines, i, fl).insert(k));
                    },
                }
            },
            None => {},
        }
    }
}

/// Re-declaring an already declared key changes nothing: a further
/// declaration line for `k`, appended to lines that already declare `k`,
/// leaves the declared set exactly as it was.
pub proof fn lemma_redeclaration_merges(lines: Seq<Seq<char>>, l: Seq<char>, k: Seq<char>)
    requires
        declared_keys(lines).contains(k),
        line_key(clean(l), inside_after(lines)) == Some(k),
    ensures
        declared_keys(lines.push(l)) == declared_keys(lines),
{
    lemma_scan_push(lines, l, 0, false);
    assert(declared_keys(lines.push(l)) =~= declared_keys(lines).insert(k));
    assert(declared_keys(lines).insert(k) =~= declared_keys(lines));
}

/// The key extracted from a declaration line does not depend on the
/// whitespace around the text left of the `=`.
pub proof fn lemma_key_whitespace_insensitive(pre: Seq<char>, name: Seq<char>, post: Seq<char>)
    requires
        forall|j: int| 0 <= j < pre.len() ==> is_wspace(pre[j]),
        forall|j: int| 0 <= j < post.len() ==> is_wspace(post[j]),
    ensures
        strip_quotes(trim(pre + name + post)) == strip_quotes(trim(name)),
{
    crate::text::lemma_trim_pad(pre, name, post);
}

/// Expose the scanner for direct exercise: same contract as
/// [`parse_feature_keys_from_lines`].
pub fn test_parse_feature_keys_from_lines(lines: &Vec<String>) -> (r: Vec<String>)
    ensures
        views(r@).to_set() == declared_keys(views(lines@)),
        views(r@).no_duplicates(),
{
    parse_feature_keys_from_lines(lines)
}

} // verus!
