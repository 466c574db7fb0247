//! The activation resolver: reconciles the declared feature keys with a
//! snapshot of environment variable names, keeping the declared keys whose
//! normalized form matches an activated `CARGO_FEATURE_*` variable, in a
//! deterministic order with `default` promoted to the front.

use vstd::prelude::*;

use crate::text::{
    contains_str, lemma_str_le_antisymmetric, lemma_str_le_connected, lemma_str_le_transitive,
    str_eq, str_le, str_le_exec, str_lt, views,
};

verus! {

/// The fixed prefix that marks an environment variable as a feature
/// activation signal.
pub open spec fn feature_prefix() -> Seq<char> {
    "CARGO_FEATURE_"@
}

/// The distinguished feature name that is surfaced first in the output.
pub open spec fn default_name() -> Seq<char> {
    "default"@
}

/// Lowercase an ASCII uppercase letter; leave every other character alone.
pub open spec fn lower_char(c: char) -> char {
    if 'A' <= c && c <= 'Z' {
        ((c as u8) + 32) as char
    } else {
        c
    }
}

/// One character of the name normalization: lowercase, with underscores
/// replaced by dashes.
pub open spec fn norm_char(c: char) -> char {
    if c == '_' {
        '-'
    } else {
        lower_char(c)
    }
}

/// The normalized form of a name: every character lowercased and every
/// underscore replaced by a dash. Declared keys and stripped environment
/// names are compared in this form, which deliberately identifies a name
/// containing an underscore with its dashed sibling.
pub open spec fn norm(s: Seq<char>) -> Seq<char> {
    s.map_values(|c: char| norm_char(c))
}

/// Whether an environment variable name carries the recognized prefix.
pub open spec fn has_feature_prefix(name: Seq<char>) -> bool {
    name.len() >= feature_prefix().len() && name.take(feature_prefix().len() as int)
        == feature_prefix()
}

/// The candidate feature name encoded by a prefixed environment variable:
/// the normalized remainder after the prefix.
pub open spec fn activation(name: Seq<char>) -> Seq<char> {
    norm(name.skip(feature_prefix().len() as int))
}

/// The variable names of an environment snapshot; the values play no part.
pub open spec fn names_of(env: Seq<(String, String)>) -> Seq<Seq<char>> {
    env.map_values(|p: (String, String)| p.0@)
}

/// A declared key is enabled when some prefixed environment variable
/// normalizes to the key's own normalized form.
pub open spec fn enabled_in(d: Seq<char>, env_names: Seq<Seq<char>>) -> bool {
    exists|i: int|
        0 <= i < env_names.len() && has_feature_prefix(env_names[i]) && activation(env_names[i])
            == norm(d)
}

/// The declared keys that are enabled by the environment snapshot.
pub open spec fn enabled_set(declared: Set<Seq<char>>, env_names: Seq<Seq<char>>) -> Set<Seq<char>> {
    Set::new(|d: Seq<char>| declared.contains(d) && enabled_in(d, env_names))
}

/// Strict ascending lexicographic order throughout a sequence of names.
pub open spec fn strictly_sorted(r: Seq<Seq<char>>) -> bool {
    forall|i: int, j: int| 0 <= i < j < r.len() ==> str_lt(r[i], r[j])
}

/// The ordering law of the resolver's output: strictly ascending, except
/// that `default`, when present, stands first.
pub open spec fn output_ordered(r: Seq<Seq<char>>) -> bool {
    if r.contains(default_name()) {
        r.len() > 0 && r[0] == default_name() && strictly_sorted(r.drop_first())
    } else {
        strictly_sorted(r)
    }
}

/// Executable counterpart of [`norm_char`].
fn norm_char_exec(c: char) -> (r: char)
    ensures
        r == norm_char(c),
{
    if c == '_' {
        '-'
    } else if 'A' <= c && c <= 'Z' {
        ((c as u8) + 32) as char
    } else {
        c
    }
}

/// The normalized form of `s` from character `from` on.
fn normalize_from(s: &str, from: usize) -> (r: Vec<char>)
    requires
        from <= s@.len(),
    ensures
        r@ == norm(s@.skip(from as int)),
{
    let len = s.unicode_len();
    let mut out: Vec<char> = Vec::new();
    let mut i: usize = from;
    while i < len
        invariant
            from <= i <= len,
            len == s@.len(),
            out@ == norm(s@.subrange(from as int, i as int)),
        decreases len - i,
    {
        let c = s.get_char(i);
        out.push(norm_char_exec(c));
        proof {
            assert(s@.subrange(from as int, i + 1) =~= s@.subrange(from as int, i as int).push(
                s@[i as int],
            ));
            assert(norm(s@.subrange(from as int, i + 1)) =~= norm(
                s@.subrange(from as int, i as int),
            ).push(norm_char(s@[i as int])));
        }
        i += 1;
    }
    proof {
        assert(s@.subrange(from as int, len as int) =~= s@.skip(from as int));
    }
    out
}

/// Whether `name` starts with the recognized feature prefix.
fn has_prefix_exec(name: &str) -> (r: bool)
    ensures
        r == has_feature_prefix(name@),
{
    proof {
        reveal_strlit("CARGO_FEATURE_");
    }
    let n = name.unicode_len();
    if n < 14 {
        return false;
    }
    let p = name.substring_char(0, 14);
    str_eq(p, "CARGO_FEATURE_")
}

/// The candidate names carried by an environment: the activation of each
/// prefixed variable name, in order.
pub open spec fn candidate_seq(env_names: Seq<Seq<char>>) -> Seq<Seq<char>>
    decreases env_names.len(),
{
    if env_names.len() == 0 {
        Seq::empty()
    } else {
        let front = candidate_seq(env_names.drop_last());
        if has_feature_prefix(env_names.last()) {
            front.push(activation(env_names.last()))
        } else {
            front
        }
    }
}

/// A name occurs among the candidates exactly when some prefixed environment
/// variable activates it.
pub proof fn lemma_candidate_membership(env_names: Seq<Seq<char>>, x: Seq<char>)
    ensures
        candidate_seq(env_names).contains(x) <==> exists|i: int|
            0 <= i < env_names.len() && has_feature_prefix(env_names[i]) && activation(
                env_names[i],
            ) == x,
    decreases env_names.len(),
{
    broadcast use vstd::seq_lib::lemma_seq_contains_after_push;

    if env_names.len() == 0 {
    } else {
        let front = env_names.drop_last();
        let l = env_names.last();
        lemma_candidate_membership(front, x);
        if candidate_seq(env_names).contains(x) {
            if has_feature_prefix(l) && x == activation(l) {
                assert(has_feature_prefix(env_names[env_names.len() - 1]) && activation(
                    env_names[env_names.len() - 1],
                ) == x);
            } else {
                let i = choose|i: int|
                    0 <= i < front.len() && has_feature_prefix(front[i]) && activation(front[i])
                        == x;
                assert(env_names[i] == front[i]);
            }
        }
        if exists|i: int|
            0 <= i < env_names.len() && has_feature_prefix(env_names[i]) && activation(
                env_names[i],
            ) == x {
            let i = choose|i: int|
                0 <= i < env_names.len() && has_feature_prefix(env_names[i]) && activation(
                    env_names[i],
                ) == x;
            if i < front.len() {
                assert(front[i] == env_names[i]);
                assert(candidate_seq(front).contains(x));
            } else {
                assert(env_names[i] == l);
            }
        }
    }
}

/// Collect the normalized candidate names from the environment snapshot.
fn activation_candidates(environment: &Vec<(String, String)>) -> (r: Vec<Vec<char>>)
    ensures
        views_chars(r@) == candidate_seq(names_of(environment@)),
{
    let ghost names = names_of(environment@);
    let mut cands: Vec<Vec<char>> = Vec::new();
    let n = environment.len();
    let mut i: usize = 0;
    while i < n
        invariant
            n == environment@.len(),
            names == names_of(environment@),
            0 <= i <= n,
            views_chars(cands@) == candidate_seq(names.take(i as int)),
        decreases n - i,
    {
        let name = &environment[i].0;
        proof {
            reveal_strlit("CARGO_FEATURE_");
            assert(names[i as int] == name@);
            assert(names.take(i + 1).drop_last() =~= names.take(i as int));
            assert(names.take(i + 1).last() == names[i as int]);
        }
        if has_prefix_exec(name.as_str()) {
            let a = normalize_from(name.as_str(), 14);
            let ghost prev = cands@;
            cands.push(a);
            proof {
                assert(a@ == activation(names[i as int]));
                assert(views_chars(cands@) =~= views_chars(prev).push(a@));
                assert(candidate_seq(names.take(i + 1)) == candidate_seq(names.take(i as int)).push(
                    activation(names[i as int]),
                ));
            }
        } else {
            proof {
                assert(candidate_seq(names.take(i + 1)) == candidate_seq(names.take(i as int)));
            }
        }
        i += 1;
    }
    proof {
        assert(names.take(n as int) =~= names);
    }
    cands
}

/// The character sequences of a sequence of character vectors.
pub open spec fn views_chars(v: Seq<Vec<char>>) -> Seq<Seq<char>> {
    v.map_values(|c: Vec<char>| c@)
}

/// Decide whether two character vectors hold the same characters.
fn chars_eq(a: &Vec<char>, b: &Vec<char>) -> (r: bool)
    ensures
        r == (a@ == b@),
{
    if a.len() != b.len() {
        return false;
    }
    let n = a.len();
    let mut i: usize = 0;
    while i < n
        invariant
            n == a@.len() == b@.len(),
            0 <= i <= n,
            forall|j: int| 0 <= j < i ==> a@[j] == b@[j],
        decreases n - i,
    {
        if a[i] != b[i] {
            return false;
        }
        i += 1;
    }
    proof {
        assert(a@ =~= b@);
    }
    true
}

/// Decide whether `key` occurs among the candidates.
fn contains_chars(cands: &Vec<Vec<char>>, key: &Vec<char>) -> (r: bool)
    ensures
        r == views_chars(cands@).contains(key@),
{
    let n = cands.len();
    let mut i: usize = 0;
    while i < n
        invariant
            n == cands@.len(),
            0 <= i <= n,
            forall|j: int| 0 <= j < i ==> views_chars(cands@)[j] != key@,
        decreases n - i,
    {
        if chars_eq(&cands[i], key) {
            assert(views_chars(cands@)[i as int] == key@);
            return true;
        }
        i += 1;
    }
    assert(forall|j: int| 0 <= j < cands@.len() ==> views_chars(cands@)[j] != key@);
    false
}

/// Non-strict ascending lexicographic order throughout a sequence of names.
pub open spec fn sorted_le(r: Seq<Seq<char>>) -> bool {
    forall|i: int, j: int| 0 <= i < j < r.len() ==> str_le(r[i], r[j])
}

/// Index of a minimal element of a non-empty vector of strings.
fn min_index(v: &Vec<String>) -> (m: usize)
    requires
        v@.len() > 0,
    ensures
        0 <= m < v@.len(),
        forall|t: int| 0 <= t < v@.len() ==> str_le(views(v@)[m as int], views(v@)[t]),
{
    let mut m: usize = 0;
    let mut j: usize = 1;
    proof {
        lemma_str_le_connected(views(v@)[0], views(v@)[0]);
    }
    while j < v.len()
        invariant
            0 <= m < j <= v@.len(),
            forall|t: int| 0 <= t < j ==> str_le(views(v@)[m as int], views(v@)[t]),
        decreases v@.len() - j,
    {
        proof {
            assert(views(v@)[j as int] == v@[j as int]@);
        }
        if str_le_exec(&v[j], &v[m]) {
            proof {
                assert forall|t: int| 0 <= t < j + 1 implies str_le(
                    views(v@)[j as int],
                    views(v@)[t],
                ) by {
                    if t < j {
                        lemma_str_le_transitive(
                            views(v@)[j as int],
                            views(v@)[m as int],
                            views(v@)[t],
                        );
                    } else {
                        lemma_str_le_connected(views(v@)[j as int], views(v@)[j as int]);
                    }
                }
            }
            m = j;
        } else {
            proof {
                lemma_str_le_connected(views(v@)[m as int], views(v@)[j as int]);
            }
        }
        j += 1;
    }
    m
}

/// Sort strings into ascending codepoint order, preserving the multiset of
/// values.
fn sort_strings(v: Vec<String>) -> (r: Vec<String>)
    ensures
        views(r@).to_multiset() == views(v@).to_multiset(),
        sorted_le(views(r@)),
{
    let ghost orig = views(v@).to_multiset();
    let mut rem = v;
    let mut out: Vec<String> = Vec::new();
    proof {
        broadcast use vstd::seq_lib::group_to_multiset_ensures;
        broadcast use vstd::multiset::group_multiset_axioms;

        assert forall|e: Seq<char>| views(out@).to_multiset().count(e) == 0 by {
            assert(!views(out@).contains(e));
        }
        assert(views(out@).to_multiset().add(views(rem@).to_multiset()) =~= orig);
    }
    while rem.len() > 0
        invariant
            views(out@).to_multiset().add(views(rem@).to_multiset()) == orig,
            sorted_le(views(out@)),
            forall|a: int, b: int|
                0 <= a < out@.len() && 0 <= b < rem@.len() ==> str_le(
                    views(out@)[a],
                    views(rem@)[b],
                ),
        decreases rem@.len(),
    {
        broadcast use vstd::seq_lib::group_to_multiset_ensures;
        broadcast use vstd::multiset::group_multiset_axioms;

        let m = min_index(&rem);
        let ghost old_rem = rem@;
        let ghost old_out = out@;
        let x = rem.remove(m);
        let ghost xv = x@;
        out.push(x);
        proof {
            assert(xv == views(old_rem)[m as int]);
            assert(views(rem@) =~= views(old_rem).remove(m as int));
            assert(views(out@) =~= views(old_out).push(xv));
            assert(views(out@).to_multiset() =~= views(old_out).to_multiset().insert(xv));
            assert(views(rem@).to_multiset() =~= views(old_rem).to_multiset().remove(xv));
            assert(views(old_rem).to_multiset().count(xv) > 0);
            assert(views(out@).to_multiset().add(views(rem@).to_multiset()) =~= orig);
            assert forall|a: int, b: int|
                0 <= a < out@.len() && 0 <= b < rem@.len() implies str_le(
                views(out@)[a],
                views(rem@)[b],
            ) by {
                let rb = views(rem@)[b];
                assert(rb == if b < m { views(old_rem)[b] } else { views(old_rem)[b + 1] });
                if a < out@.len() - 1 {
                    assert(views(out@)[a] == views(old_out)[a]);
                } else {
                    assert(views(out@)[a] == xv);
                }
            }
        }
    }
    proof {
        broadcast use vstd::seq_lib::group_to_multiset_ensures;
        broadcast use vstd::multiset::group_multiset_axioms;

        assert forall|e: Seq<char>| views(rem@).to_multiset().count(e) == 0 by {
            assert(!views(rem@).contains(e));
        }
        assert(views(out@).to_multiset() =~= orig);
    }
    out
}

/// The declared keys, other than the sentinel, that the environment enables,
/// in order of first appearance.
pub open spec fn chosen_seq(declared: Seq<Seq<char>>, env_names: Seq<Seq<char>>) -> Seq<Seq<char>>
    decreases declared.len(),
{
    if declared.len() == 0 {
        Seq::empty()
    } else {
        let front = chosen_seq(declared.drop_last(), env_names);
        let d = declared.last();
        if enabled_in(d, env_names) && d != default_name() && !front.contains(d) {
            front.push(d)
        } else {
            front
        }
    }
}

/// Whether the declared keys include an enabled sentinel.
pub open spec fn default_flag(declared: Seq<Seq<char>>, env_names: Seq<Seq<char>>) -> bool
    decreases declared.len(),
{
    if declared.len() == 0 {
        false
    } else {
        default_flag(declared.drop_last(), env_names) || (declared.last() == default_name()
            && enabled_in(default_name(), env_names))
    }
}

/// A name is chosen exactly when it is declared, enabled, and not the
/// sentinel.
pub proof fn lemma_chosen_membership(
    declared: Seq<Seq<char>>,
    env_names: Seq<Seq<char>>,
    x: Seq<char>,
)
    ensures
        chosen_seq(declared, env_names).contains(x) <==> (declared.contains(x) && enabled_in(
            x,
            env_names,
        ) && x != default_name()),
    decreases declared.len(),
{
    broadcast use vstd::seq_lib::lemma_seq_contains_after_push;

    if declared.len() == 0 {
    } else {
        let front = declared.drop_last();
        let d = declared.last();
        lemma_chosen_membership(front, env_names, x);
        if chosen_seq(declared, env_names).contains(x) && !(front.contains(x) || x == d) {
            // membership in the chosen keys always comes from a declared key
            assert(chosen_seq(front, env_names).contains(x) || x == d);
        }
        if declared.contains(x) {
            let i = choose|i: int| 0 <= i < declared.len() && declared[i] == x;
            if i < front.len() {
                assert(front[i] == x);
                assert(front.contains(x));
            } else {
                assert(d == x);
            }
        }
        if front.contains(x) {
            let i = choose|i: int| 0 <= i < front.len() && front[i] == x;
            assert(declared[i] == x);
        }
    }
}

/// The chosen keys hold no duplicates.
pub proof fn lemma_chosen_no_duplicates(declared: Seq<Seq<char>>, env_names: Seq<Seq<char>>)
    ensures
        chosen_seq(declared, env_names).no_duplicates(),
    decreases declared.len(),
{
    broadcast use vstd::seq_lib::lemma_seq_contains_after_push;

    if declared.len() == 0 {
    } else {
        let front = declared.drop_last();
        let d = declared.last();
        lemma_chosen_no_duplicates(front, env_names);
        let cf = chosen_seq(front, env_names);
        if enabled_in(d, env_names) && d != default_name() && !cf.contains(d) {
            assert forall|i: int, j: int|
                0 <= i < cf.push(d).len() && 0 <= j < cf.push(d).len() && i != j implies cf.push(
                d,
            )[i] != cf.push(d)[j] by {
                if i < cf.len() && j < cf.len() {
                } else if i < cf.len() {
                    assert(cf.contains(cf[i]));
                } else if j < cf.len() {
                    assert(cf.contains(cf[j]));
                }
            }
        }
    }
}

/// The sentinel flag holds exactly when `default` is declared and enabled.
pub proof fn lemma_default_flag(declared: Seq<Seq<char>>, env_names: Seq<Seq<char>>)
    ensures
        default_flag(declared, env_names) <==> (declared.contains(default_name()) && enabled_in(
            default_name(),
            env_names,
        )),
    decreases declared.len(),
{
    if declared.len() == 0 {
    } else {
        let front = declared.drop_last();
        let d = declared.last();
        lemma_default_flag(front, env_names);
        if declared.contains(default_name()) {
            let i = choose|i: int| 0 <= i < declared.len() && declared[i] == default_name();
            if i < front.len() {
                assert(front[i] == default_name());
                assert(front.contains(default_name()));
            } else {
                assert(d == default_name());
            }
        }
        if front.contains(default_name()) {
            let i = choose|i: int| 0 <= i < front.len() && front[i] == default_name();
            assert(declared[i] == default_name());
        }
    }
}

/// Dropping the first element of a duplicate-free sequence removes exactly
/// that element from its set.
proof fn lemma_tail_set(r: Seq<Seq<char>>)
    requires
        r.len() > 0,
        r.no_duplicates(),
    ensures
        r.drop_first().to_set() == r.to_set().remove(r[0]),
{
    let t = r.drop_first();
    assert forall|x: Seq<char>| t.to_set().contains(x) implies r.to_set().remove(r[0]).contains(
        x,
    ) by {
        let i = choose|i: int| 0 <= i < t.len() && t[i] == x;
        assert(r[i + 1] == x);
        assert(r.contains(x));
        assert(r[0] != r[i + 1]);
    }
    assert forall|x: Seq<char>| r.to_set().remove(r[0]).contains(x) implies t.to_set().contains(
        x,
    ) by {
        let i = choose|i: int| 0 <= i < r.len() && r[i] == x;
        assert(i != 0);
        assert(t[i - 1] == x);
        assert(t.contains(x));
    }
    assert(t.to_set() =~= r.to_set().remove(r[0]));
}

/// Two strictly sorted sequences over the same set of names are equal.
proof fn lemma_strictly_sorted_unique(a: Seq<Seq<char>>, b: Seq<Seq<char>>)
    requires
        strictly_sorted(a),
        strictly_sorted(b),
        a.to_set() == b.to_set(),
    ensures
        a == b,
    decreases a.len(),
{
    if a.len() == 0 {
        if b.len() > 0 {
            assert(b.contains(b[0]));
            assert(a.to_set().contains(b[0]));
            let i = choose|i: int| 0 <= i < a.len() && a[i] == b[0];
        }
        assert(a =~= b);
    } else if b.len() == 0 {
        assert(a.contains(a[0]));
        assert(b.to_set().contains(a[0]));
        let i = choose|i: int| 0 <= i < b.len() && b[i] == a[0];
    } else {
        assert(a.contains(a[0]) && b.contains(b[0]));
        assert(b.to_set().contains(a[0]) && a.to_set().contains(b[0]));
        let k = choose|k: int| 0 <= k < b.len() && b[k] == a[0];
        let m = choose|m: int| 0 <= m < a.len() && a[m] == b[0];
        if k > 0 && m > 0 {
            assert(str_lt(b[0], b[k]) && str_lt(a[0], a[m]));
            lemma_str_le_antisymmetric(a[0], b[0]);
            assert(false);
        }
        assert(a[0] == b[0]);
        // both sequences are duplicate-free, since their order is strict
        assert forall|i: int, j: int|
            0 <= i < a.len() && 0 <= j < a.len() && i != j implies a[i] != a[j] by {
            if i < j {
                assert(str_lt(a[i], a[j]));
            } else {
                assert(str_lt(a[j], a[i]));
            }
        }
        assert forall|i: int, j: int|
            0 <= i < b.len() && 0 <= j < b.len() && i != j implies b[i] != b[j] by {
            if i < j {
                assert(str_lt(b[i], b[j]));
            } else {
                assert(str_lt(b[j], b[i]));
            }
        }
        lemma_tail_set(a);
        lemma_tail_set(b);
        let ta = a.drop_first();
        let tb = b.drop_first();
        assert(forall|i: int, j: int| 0 <= i < j < ta.len() ==> str_lt(#[trigger] ta[i], #[trigger] ta[j]))
            by {
            assert forall|i: int, j: int| 0 <= i < j < ta.len() implies str_lt(
                #[trigger] ta[i],
                #[trigger] ta[j],
            ) by {
                assert(ta[i] == a[i + 1] && ta[j] == a[j + 1]);
            }
        }
        assert(forall|i: int, j: int| 0 <= i < j < tb.len() ==> str_lt(#[trigger] tb[i], #[trigger] tb[j]))
            by {
            assert forall|i: int, j: int| 0 <= i < j < tb.len() implies str_lt(
                #[trigger] tb[i],
                #[trigger] tb[j],
            ) by {
                assert(tb[i] == b[i + 1] && tb[j] == b[j + 1]);
            }
        }
        lemma_strictly_sorted_unique(ta, tb);
        assert forall|i: int| 0 <= i < a.len() implies a[i] == b[i] by {
            if i > 0 {
                assert(ta[i - 1] == tb[i - 1]);
            }
        }
        assert(a =~= b);
    }
}

/// The resolver's contract pins its output down: two outputs that hold the
/// same set of names, without duplicates and in the resolver's order, are
/// the same sequence.
pub proof fn lemma_output_unique(r1: Seq<Seq<char>>, r2: Seq<Seq<char>>)
    requires
        r1.to_set() == r2.to_set(),
        r1.no_duplicates(),
        r2.no_duplicates(),
        output_ordered(r1),
        output_ordered(r2),
    ensures
        r1 == r2,
{
    if r1.contains(default_name()) {
        assert(r1.to_set().contains(default_name()));
        assert(r2.contains(default_name()));
        lemma_tail_set(r1);
        lemma_tail_set(r2);
        lemma_strictly_sorted_unique(r1.drop_first(), r2.drop_first());
        assert forall|i: int| 0 <= i < r1.len() implies r1[i] == r2[i] by {
            if i > 0 {
                assert(r1.drop_first()[i - 1] == r2.drop_first()[i - 1]);
            }
        }
        assert(r1.len() == r2.len());
        assert(r1 =~= r2);
    } else {
        if r2.contains(default_name()) {
            assert(r2.to_set().contains(default_name()));
            assert(r1.contains(default_name()));
        }
        lemma_strictly_sorted_unique(r1, r2);
    }
}

/// Resolve which declared feature keys the environment snapshot enables.
///
/// The result holds exactly the declared keys whose normalized form matches
/// the activation of some `CARGO_FEATURE_*` variable name, each once, in
/// ascending codepoint order, except that `default`, when enabled, stands
/// first.
pub fn list_enabled_among(all_features: &Vec<String>, environment: &Vec<(String, String)>) -> (r:
    Vec<String>)
    ensures
        views(r@).to_set() == enabled_set(views(all_features@).to_set(), names_of(environment@)),
        views(r@).no_duplicates(),
        output_ordered(views(r@)),
{
    let ghost names = names_of(environment@);
    let ghost declared = views(all_features@);
    let cands = activation_candidates(environment);
    let mut chosen: Vec<String> = Vec::new();
    let mut default_on = false;
    let n = all_features.len();
    let mut i: usize = 0;
    while i < n
        invariant
            n == all_features@.len(),
            declared == views(all_features@),
            names == names_of(environment@),
            views_chars(cands@) == candidate_seq(names),
            0 <= i <= n,
            views(chosen@) == chosen_seq(declared.take(i as int), names),
            default_on == default_flag(declared.take(i as int), names),
        decreases n - i,
    {
        let d = &all_features[i];
        proof {
            assert(declared[i as int] == d@);
            assert(declared.take(i + 1).drop_last() =~= declared.take(i as int));
            assert(declared.take(i + 1).last() == declared[i as int]);
            assert(d@.skip(0) =~= d@);
        }
        let nd = normalize_from(d.as_str(), 0);
        let active = contains_chars(&cands, &nd);
        proof {
            lemma_candidate_membership(names, norm(d@));
            assert(active == enabled_in(d@, names));
        }
        if active {
            if str_eq(d.as_str(), "default") {
                default_on = true;
                proof {
                    assert(d@ == default_name());
                    assert(norm(d@) == norm(default_name()));
                }
            } else if !contains_str(&chosen, d.as_str()) {
                let ghost prev = chosen@;
                chosen.push(d.clone());
                proof {
                    assert(views(chosen@) =~= views(prev).push(d@));
                }
            }
        }
        proof {
            assert(views(chosen@) == chosen_seq(declared.take(i + 1), names));
            assert(default_on == default_flag(declared.take(i + 1), names));
        }
        i += 1;
    }
    proof {
        assert(declared.take(n as int) =~= declared);
    }
    let sorted = sort_strings(chosen);
    let ghost cs = chosen_seq(declared, names);
    let ghost sv = views(sorted@);
    proof {
        broadcast use vstd::seq_lib::group_to_multiset_ensures;

        lemma_chosen_no_duplicates(declared, names);
        cs.lemma_multiset_has_no_duplicates();
        assert(forall|x: Seq<char>| sv.to_multiset().contains(x) ==> sv.to_multiset().count(x)
            == 1);
        sv.lemma_multiset_has_no_duplicates_conv();
        assert forall|x: Seq<char>| sv.contains(x) <==> cs.contains(x) by {
            assert(sv.to_multiset().count(x) == cs.to_multiset().count(x));
        }
    }
    let mut result: Vec<String> = Vec::new();
    if default_on {
        result.push("default".to_owned());
        proof {
            assert(views(result@) =~= Seq::<Seq<char>>::empty().push(default_name()));
        }
    }
    let ghost head = views(result@);
    let mut tail = sorted;
    result.append(&mut tail);
    proof {
        broadcast use vstd::seq_lib::lemma_seq_contains_after_push;

        let rv = views(result@);
        assert(rv =~= head + sv);
        lemma_default_flag(declared, names);
        assert forall|x: Seq<char>| rv.contains(x) implies #[trigger] enabled_set(
            declared.to_set(),
            names,
        ).contains(x) by {
            let k = choose|k: int| 0 <= k < rv.len() && rv[k] == x;
            if default_on && k == 0 {
                assert(x == default_name());
            } else {
                assert(sv[k - head.len()] == x);
                assert(sv.contains(x));
                lemma_chosen_membership(declared, names, x);
            }
        }
        assert forall|x: Seq<char>| #[trigger] enabled_set(declared.to_set(), names).contains(
            x,
        ) implies rv.contains(x) by {
            lemma_chosen_membership(declared, names, x);
            if x == default_name() {
                assert(default_on);
                assert(rv[0] == x);
            } else {
                assert(cs.contains(x));
                let k = choose|k: int| 0 <= k < sv.len() && sv[k] == x;
                assert(rv[k + head.len()] == x);
            }
        }
        assert(rv.to_set() =~= enabled_set(declared.to_set(), names));
        // the sentinel never sits among the sorted keys
        assert forall|k: int| 0 <= k < sv.len() implies sv[k] != default_name() by {
            assert(sv.contains(sv[k]));
            lemma_chosen_membership(declared, names, sv[k]);
        }
        assert(rv.no_duplicates());
        // ordering: the sorted keys ascend strictly, after the sentinel if any
        assert(sorted_le(sv));
        assert(strictly_sorted(sv));
        if default_on {
            assert(rv[0] == default_name());
            assert(rv.contains(default_name()));
            assert(rv.drop_first() =~= sv);
        } else {
            assert(rv =~= sv);
            if rv.contains(default_name()) {
                let k = choose|k: int| 0 <= k < rv.len() && rv[k] == default_name();
                assert(sv[k] != default_name());
            }
        }
        assert(output_ordered(rv));
    }
    result
}

/// Expose the resolver for direct exercise: same contract as
/// [`list_enabled_among`].
pub fn test_list_enabled_among(all_features: &Vec<String>, environment: &Vec<(String, String)>) -> (
    r: Vec<String>)
    ensures
        views(r@).to_set() == enabled_set(views(all_features@).to_set(), names_of(environment@)),
        views(r@).no_duplicates(),
        output_ordered(views(r@)),
{
    list_enabled_among(all_features, environment)
}

} // verus!
