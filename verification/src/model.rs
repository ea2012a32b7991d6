//! The mathematical model shared by the path types: splitting a character
//! sequence into components, joining components with a separator, the
//! right-to-left `..` accounting walk of the cleaner, and trailing
//! dot-and-space trimming.

use vstd::prelude::*;

verus! {

/// Windows accepts either separator on input.
pub open spec fn is_win_sep(c: char) -> bool {
    c == '\\' || c == '/'
}

pub open spec fn win_sep_fn() -> spec_fn(char) -> bool {
    |c: char| is_win_sep(c)
}

pub open spec fn eq_sep_fn(sep: char) -> spec_fn(char) -> bool {
    |c: char| c == sep
}

pub open spec fn pair_sep_fn(a: char, b: char) -> spec_fn(char) -> bool {
    |c: char| c == a || c == b
}

/// Predicates that agree pointwise split a sequence the same way.
pub proof fn lemma_split_on_congruence(s: Seq<char>, f: spec_fn(char) -> bool, g: spec_fn(
    char,
) -> bool)
    requires
        forall|c: char| #[trigger] f(c) == g(c),
    ensures
        split_on(s, f) == split_on(s, g),
    decreases s.len(),
{
    lemma_find_first_bounds(s, f);
    lemma_find_first_is(s, g, find_first(s, f) as int);
    let i = find_first(s, f);
    if i < s.len() {
        lemma_split_on_congruence(s.skip(i as int + 1), f, g);
    }
}

/// Index of the first character satisfying `f`, or the length when none does.
pub open spec fn find_first(s: Seq<char>, f: spec_fn(char) -> bool) -> nat
    decreases s.len(),
{
    if s.len() == 0 {
        0
    } else if f(s[0]) {
        0
    } else {
        (1 + find_first(s.drop_first(), f)) as nat
    }
}

pub proof fn lemma_find_first_bounds(s: Seq<char>, f: spec_fn(char) -> bool)
    ensures
        find_first(s, f) <= s.len(),
        forall|j: int| 0 <= j < find_first(s, f) ==> !f(s[j]),
        find_first(s, f) < s.len() ==> f(s[find_first(s, f) as int]),
    decreases s.len(),
{
    if s.len() == 0 {
    } else if f(s[0]) {
    } else {
        lemma_find_first_bounds(s.drop_first(), f);
        assert forall|j: int| 0 <= j < find_first(s, f) implies !f(s[j]) by {
            if j >= 1 {
                assert(s[j] == s.drop_first()[j - 1]);
            }
        }
        if find_first(s, f) < s.len() {
            assert(s[find_first(s, f) as int] == s.drop_first()[find_first(s.drop_first(), f) as int]);
        }
    }
}

/// `find_first` is determined by the characterization above.
pub proof fn lemma_find_first_is(s: Seq<char>, f: spec_fn(char) -> bool, i: int)
    requires
        0 <= i <= s.len(),
        forall|j: int| 0 <= j < i ==> !f(s[j]),
        i < s.len() ==> f(s[i]),
    ensures
        find_first(s, f) == i,
{
    lemma_find_first_bounds(s, f);
    if find_first(s, f) < i {
        assert(!f(s[find_first(s, f) as int]));
    }
}

/// Predicates that agree on the characters of this sequence split it the
/// same way.
pub proof fn lemma_split_on_congruence_local(
    s: Seq<char>,
    f: spec_fn(char) -> bool,
    g: spec_fn(char) -> bool,
)
    requires
        forall|i: int| 0 <= i < s.len() ==> f(s[i]) == g(s[i]),
    ensures
        split_on(s, f) == split_on(s, g),
    decreases s.len(),
{
    lemma_find_first_bounds(s, f);
    lemma_find_first_is(s, g, find_first(s, f) as int);
    let i = find_first(s, f);
    if i < s.len() {
        assert forall|j: int| 0 <= j < s.skip(i as int + 1).len() implies f(
            #[trigger] s.skip(i as int + 1)[j],
        ) == g(s.skip(i as int + 1)[j]) by {
            assert(s.skip(i as int + 1)[j] == s[i + 1 + j]);
        }
        lemma_split_on_congruence_local(s.skip(i as int + 1), f, g);
    }
}

/// The last component of a split is empty exactly when the sequence ends
/// with a separator.
pub proof fn lemma_split_on_last(s: Seq<char>, f: spec_fn(char) -> bool)
    requires
        s.len() > 0,
    ensures
        (split_on(s, f).last().len() == 0) == f(s.last()),
    decreases s.len(),
{
    let i = find_first(s, f);
    lemma_find_first_bounds(s, f);
    lemma_split_on_len(s, f);
    if i >= s.len() {
        assert(split_on(s, f).last() == s);
        assert(!f(s.last()));
    } else {
        let rest = s.skip(i as int + 1);
        lemma_split_on_len(rest, f);
        assert(split_on(s, f).last() == split_on(rest, f).last());
        if rest.len() == 0 {
            assert(i == s.len() - 1);
            assert(f(s.last()));
            assert(split_on(rest, f) == seq![rest]);
        } else {
            lemma_split_on_last(rest, f);
            assert(rest.last() == s.last());
        }
    }
}

/// Split a sequence at every separator. The result always has at least one
/// element; adjacent separators and a leading or trailing separator yield
/// empty components.
pub open spec fn split_on(s: Seq<char>, f: spec_fn(char) -> bool) -> Seq<Seq<char>>
    decreases s.len(),
{
    let i = find_first(s, f);
    if i >= s.len() {
        seq![s]
    } else {
        seq![s.take(i as int)] + split_on(s.skip(i as int + 1), f)
    }
}

/// Peeling the first component off a split, given where the first separator
/// stands (or that none does).
pub proof fn lemma_split_on_first(s: Seq<char>, f: spec_fn(char) -> bool, i: int)
    requires
        0 <= i <= s.len(),
        forall|j: int| 0 <= j < i ==> !f(s[j]),
        i < s.len() ==> f(s[i]),
    ensures
        i < s.len() ==> split_on(s, f) == seq![s.take(i)] + split_on(s.skip(i as int + 1), f),
        i == s.len() ==> split_on(s, f) == seq![s],
{
    lemma_find_first_is(s, f, i);
}

pub proof fn lemma_split_on_len(s: Seq<char>, f: spec_fn(char) -> bool)
    ensures
        split_on(s, f).len() >= 1,
    decreases s.len(),
{
    let i = find_first(s, f);
    lemma_find_first_bounds(s, f);
    if i < s.len() {
        lemma_split_on_len(s.skip(i as int + 1), f);
    }
}

/// A split has at most one more component than the sequence has characters.
pub proof fn lemma_split_on_count(s: Seq<char>, f: spec_fn(char) -> bool)
    ensures
        split_on(s, f).len() <= s.len() + 1,
    decreases s.len(),
{
    let i = find_first(s, f);
    lemma_find_first_bounds(s, f);
    if i < s.len() {
        lemma_split_on_count(s.skip(i as int + 1), f);
    }
}

/// Every component of a split is separator-free.
pub proof fn lemma_split_on_components_free(s: Seq<char>, f: spec_fn(char) -> bool)
    ensures
        forall|k: int, j: int|
            0 <= k < split_on(s, f).len() && 0 <= j < split_on(s, f)[k].len() ==> !f(
                split_on(s, f)[k][j],
            ),
    decreases s.len(),
{
    let i = find_first(s, f);
    lemma_find_first_bounds(s, f);
    if i < s.len() {
        lemma_split_on_components_free(s.skip(i as int + 1), f);
        assert forall|k: int, j: int|
            0 <= k < split_on(s, f).len() && 0 <= j < split_on(s, f)[k].len() implies !f(
            split_on(s, f)[k][j],
        ) by {
            if k == 0 {
                assert(split_on(s, f)[0] == s.take(i as int));
                assert(!f(s[j]));
            } else {
                assert(split_on(s, f)[k] == split_on(s.skip(i as int + 1), f)[k - 1]);
            }
        }
    }
}

/// Join components with a separator character.
pub open spec fn join_with(cs: Seq<Seq<char>>, sep: char) -> Seq<char>
    decreases cs.len(),
{
    if cs.len() == 0 {
        Seq::empty()
    } else if cs.len() == 1 {
        cs[0]
    } else {
        cs[0] + seq![sep] + join_with(cs.drop_first(), sep)
    }
}

pub proof fn lemma_join_push(cs: Seq<Seq<char>>, sep: char, c: Seq<char>)
    ensures
        cs.len() == 0 ==> join_with(cs.push(c), sep) == c,
        cs.len() > 0 ==> join_with(cs.push(c), sep) == join_with(cs, sep) + seq![sep] + c,
    decreases cs.len(),
{
    if cs.len() == 0 {
        assert(cs.push(c)[0] == c);
    } else if cs.len() == 1 {
        assert(cs.push(c).drop_first() =~= seq![c]);
        assert(cs.push(c)[0] == cs[0]);
        assert(join_with(seq![c], sep) == c);
        assert(join_with(cs.push(c), sep) == cs[0] + seq![sep] + c);
    } else {
        lemma_join_push(cs.drop_first(), sep, c);
        assert(cs.push(c).drop_first() =~= cs.drop_first().push(c));
        assert(join_with(cs, sep) + seq![sep] + c =~= cs[0] + seq![sep] + (join_with(
            cs.drop_first(),
            sep,
        ) + seq![sep] + c));
    }
}

/// Joining the components a string was split on reproduces the string.
pub proof fn lemma_join_split_on(s: Seq<char>, sep: char)
    ensures
        join_with(split_on(s, eq_sep_fn(sep)), sep) == s,
    decreases s.len(),
{
    let f = eq_sep_fn(sep);
    let i = find_first(s, f);
    lemma_find_first_bounds(s, f);
    if i >= s.len() {
        assert(join_with(seq![s], sep) == s);
    } else {
        lemma_join_split_on(s.skip(i as int + 1), sep);
        let rest = split_on(s.skip(i as int + 1), f);
        lemma_split_on_len(s.skip(i as int + 1), f);
        let whole = seq![s.take(i as int)] + rest;
        assert(whole[0] == s.take(i as int));
        assert(whole.drop_first() =~= rest);
        assert(whole.len() >= 2);
        assert(join_with(whole, sep) == s.take(i as int) + seq![sep] + join_with(rest, sep));
        assert(f(s[i as int]));
        assert(s[i as int] == sep);
        assert(s.take(i as int) + seq![sep] + s.skip(i as int + 1) =~= s);
    }
}

/// Splitting a join recovers the components, when each is separator-free.
pub proof fn lemma_split_on_join(cs: Seq<Seq<char>>, sep: char, f: spec_fn(char) -> bool)
    requires
        cs.len() >= 1,
        f(sep),
        forall|k: int, j: int| 0 <= k < cs.len() && 0 <= j < cs[k].len() ==> !f(cs[k][j]),
    ensures
        split_on(join_with(cs, sep), f) == cs,
    decreases cs.len(),
{
    let s = join_with(cs, sep);
    if cs.len() == 1 {
        assert(s == cs[0]);
        lemma_find_first_is(s, f, s.len() as int);
        assert(split_on(s, f) =~= cs);
    } else {
        let rest = cs.drop_first();
        assert(s == cs[0] + seq![sep] + join_with(rest, sep));
        let i = cs[0].len() as int;
        assert(forall|j: int| 0 <= j < i ==> s[j] == cs[0][j] && !f(s[j]));
        assert(s[i] == sep);
        lemma_split_on_first(s, f, i);
        assert(s.take(i) =~= cs[0]);
        assert(s.skip(i as int + 1) =~= join_with(rest, sep));
        assert forall|k: int, j: int|
            0 <= k < rest.len() && 0 <= j < rest[k].len() implies !f(rest[k][j]) by {
            assert(rest[k] == cs[k + 1]);
        }
        lemma_split_on_join(rest, sep, f);
        assert(split_on(s, f) =~= seq![cs[0]] + rest);
        assert(seq![cs[0]] + rest =~= cs);
    }
}

/// Index of the last character satisfying `f`, or `-1` when none does.
pub open spec fn find_last(s: Seq<char>, f: spec_fn(char) -> bool) -> int
    decreases s.len(),
{
    if s.len() == 0 {
        -1
    } else if f(s.last()) {
        s.len() - 1
    } else {
        find_last(s.drop_last(), f)
    }
}

pub proof fn lemma_find_last_bounds(s: Seq<char>, f: spec_fn(char) -> bool)
    ensures
        -1 <= find_last(s, f) < s.len(),
        find_last(s, f) >= 0 ==> f(s[find_last(s, f)]),
        forall|j: int| find_last(s, f) < j < s.len() ==> !f(s[j]),
    decreases s.len(),
{
    if s.len() == 0 {
    } else if f(s.last()) {
    } else {
        lemma_find_last_bounds(s.drop_last(), f);
        let k = find_last(s, f);
        if k >= 0 {
            assert(s[k] == s.drop_last()[k]);
        }
        assert forall|j: int| k < j < s.len() implies !f(s[j]) by {
            if j < s.len() - 1 {
                assert(s[j] == s.drop_last()[j]);
            }
        }
    }
}

/// `find_last` is determined by the characterization above.
pub proof fn lemma_find_last_is(s: Seq<char>, f: spec_fn(char) -> bool, k: int)
    requires
        -1 <= k < s.len(),
        k >= 0 ==> f(s[k]),
        forall|j: int| k < j < s.len() ==> !f(s[j]),
    ensures
        find_last(s, f) == k,
{
    lemma_find_last_bounds(s, f);
    let l = find_last(s, f);
    if l < k {
        assert(!f(s[k]));
    }
    if l > k {
        assert(!f(s[l]));
    }
}

pub open spec fn dot() -> Seq<char> {
    seq!['.']
}

pub open spec fn dotdot() -> Seq<char> {
    seq!['.', '.']
}

/// Strip a single trailing dot, but not two or more dots.
pub open spec fn strip_one_dot(c: Seq<char>) -> Seq<char> {
    if c.len() >= 1 && c.last() == '.' && !(c.len() >= 2 && c[c.len() - 2] == '.') {
        c.drop_last()
    } else {
        c
    }
}

/// A component the cleaning walk passes through unchanged: non-empty, not a
/// `.` or `..` reference, and with no single trailing dot left to strip.
pub open spec fn walk_clean_component(c: Seq<char>) -> bool {
    c.len() > 0 && c != dot() && c != dotdot() && strip_one_dot(c) == c
}

/// The right-to-left accounting walk of the cleaner over a component
/// sequence. `pending` is the count of `..` components already owed from the
/// right. Yields the surviving components in path order together with the
/// count of `..` that remained unresolved at the left end.
pub open spec fn walk(cs: Seq<Seq<char>>, pending: nat) -> (Seq<Seq<char>>, nat)
    decreases cs.len(),
{
    if cs.len() == 0 {
        (Seq::empty(), pending)
    } else {
        let c = cs.last();
        let rest = cs.drop_last();
        if c.len() == 0 || c == dot() {
            walk(rest, pending)
        } else if c == dotdot() {
            walk(rest, (pending + 1) as nat)
        } else if pending > 0 {
            walk(rest, (pending - 1) as nat)
        } else {
            let r = walk(rest, 0);
            (r.0.push(strip_one_dot(c)), r.1)
        }
    }
}

/// How the walk treats one component prepended on the left.
pub proof fn lemma_walk_cons(c: Seq<char>, cs: Seq<Seq<char>>, pending: nat)
    ensures
        ({
            let r = walk(cs, pending);
            let w = walk(seq![c] + cs, pending);
            if c.len() == 0 || c == dot() {
                w.0 == r.0 && w.1 == r.1
            } else if c == dotdot() {
                w.0 == r.0 && w.1 == r.1 + 1
            } else if r.1 > 0 {
                w.0 == r.0 && w.1 == r.1 - 1
            } else {
                w.0 == seq![strip_one_dot(c)] + r.0 && w.1 == 0
            }
        }),
    decreases cs.len(),
{
    reveal_with_fuel(walk, 3);
    let whole = seq![c] + cs;
    if cs.len() == 0 {
        assert(whole =~= seq![c]);
        assert(whole.last() == c);
        assert(whole.drop_last() =~= Seq::<Seq<char>>::empty());
        let r = walk(cs, pending);
        assert(r.0 =~= Seq::<Seq<char>>::empty());
        if !(c.len() == 0 || c == dot()) && !(c == dotdot()) && !(pending > 0) {
            assert(walk(whole.drop_last(), 0) == (Seq::<Seq<char>>::empty(), 0nat));
            assert(walk(whole, pending).0 == walk(whole.drop_last(), 0).0.push(strip_one_dot(c)));
            assert(walk(whole, pending).0 =~= seq![strip_one_dot(c)] + r.0);
        }
    } else {
        let d = cs.last();
        assert(whole.last() == d);
        assert(whole.drop_last() =~= seq![c] + cs.drop_last());
        if d.len() == 0 || d == dot() {
            lemma_walk_cons(c, cs.drop_last(), pending);
        } else if d == dotdot() {
            lemma_walk_cons(c, cs.drop_last(), (pending + 1) as nat);
        } else if pending > 0 {
            lemma_walk_cons(c, cs.drop_last(), (pending - 1) as nat);
        } else {
            lemma_walk_cons(c, cs.drop_last(), 0);
            let r = walk(cs.drop_last(), 0);
            let rw = walk(cs, pending);
            assert(rw.0 == r.0.push(strip_one_dot(d)) && rw.1 == r.1);
            if c.len() == 0 || c == dot() {
            } else if c == dotdot() {
            } else if r.1 > 0 {
            } else {
                assert((seq![strip_one_dot(c)] + r.0).push(strip_one_dot(d)) =~= seq![
                    strip_one_dot(c)] + r.0.push(strip_one_dot(d)));
            }
        }
    }
}

/// A walk over components that are already clean changes nothing.
pub proof fn lemma_walk_identity(cs: Seq<Seq<char>>)
    requires
        forall|k: int| 0 <= k < cs.len() ==> walk_clean_component(#[trigger] cs[k]),
    ensures
        walk(cs, 0).0 == cs,
        walk(cs, 0).1 == 0,
    decreases cs.len(),
{
    reveal_with_fuel(walk, 3);
    if cs.len() == 0 {
        assert(walk(cs, 0).0 =~= cs);
    } else {
        let c = cs.last();
        let rest = cs.drop_last();
        assert(walk_clean_component(cs[cs.len() - 1]));
        assert forall|k: int| 0 <= k < rest.len() implies walk_clean_component(
            #[trigger] rest[k],
        ) by {
            assert(rest[k] == cs[k]);
        }
        lemma_walk_identity(rest);
        assert(c.len() > 0 && c != dot() && c != dotdot() && strip_one_dot(c) == c);
        assert(walk(cs, 0).0 == walk(rest, 0).0.push(strip_one_dot(c)));
        assert(walk(cs, 0).0 =~= cs);
    }
}

/// Every survivor of the walk is clean in the sense of
/// `walk_clean_component`.
pub proof fn lemma_walk_survivors_clean(cs: Seq<Seq<char>>, pending: nat)
    ensures
        forall|k: int|
            0 <= k < walk(cs, pending).0.len() ==> walk_clean_component(
                #[trigger] walk(cs, pending).0[k],
            ),
    decreases cs.len(),
{
    reveal_with_fuel(walk, 3);
    if cs.len() == 0 {
    } else {
        let c = cs.last();
        let rest = cs.drop_last();
        if c.len() == 0 || c == dot() {
            lemma_walk_survivors_clean(rest, pending);
            assert(walk(cs, pending).0 == walk(rest, pending).0);
        } else if c == dotdot() {
            lemma_walk_survivors_clean(rest, (pending + 1) as nat);
            assert(walk(cs, pending).0 == walk(rest, (pending + 1) as nat).0);
        } else if pending > 0 {
            lemma_walk_survivors_clean(rest, (pending - 1) as nat);
            assert(walk(cs, pending).0 == walk(rest, (pending - 1) as nat).0);
        } else {
            lemma_walk_survivors_clean(rest, 0);
            lemma_strip_one_dot_clean(c);
            let r = walk(rest, 0);
            assert(walk(cs, pending).0 == r.0.push(strip_one_dot(c)));
            assert forall|k: int| 0 <= k < walk(cs, pending).0.len() implies walk_clean_component(
                walk(cs, pending).0[k],
            ) by {
                if k < r.0.len() {
                    assert(walk(cs, pending).0[k] == r.0[k]);
                } else {
                    assert(walk(cs, pending).0[k] == strip_one_dot(c));
                }
            }
        }
    }
}

/// Survivors of a walk over components free of a character stay free of it.
pub proof fn lemma_walk_survivors_free(cs: Seq<Seq<char>>, pending: nat, f: spec_fn(char) -> bool)
    requires
        forall|k: int, j: int| 0 <= k < cs.len() && 0 <= j < cs[k].len() ==> !f(cs[k][j]),
    ensures
        forall|k: int, j: int|
            0 <= k < walk(cs, pending).0.len() && 0 <= j < walk(cs, pending).0[k].len() ==> !f(
                walk(cs, pending).0[k][j],
            ),
    decreases cs.len(),
{
    reveal_with_fuel(walk, 3);
    if cs.len() == 0 {
    } else {
        let c = cs.last();
        let rest = cs.drop_last();
        assert forall|k: int, j: int|
            0 <= k < rest.len() && 0 <= j < rest[k].len() implies !f(rest[k][j]) by {
            assert(rest[k] == cs[k]);
        }
        assert(c == cs[cs.len() - 1]);
        if c.len() == 0 || c == dot() {
            lemma_walk_survivors_free(rest, pending, f);
            assert(walk(cs, pending).0 == walk(rest, pending).0);
        } else if c == dotdot() {
            lemma_walk_survivors_free(rest, (pending + 1) as nat, f);
            assert(walk(cs, pending).0 == walk(rest, (pending + 1) as nat).0);
        } else if pending > 0 {
            lemma_walk_survivors_free(rest, (pending - 1) as nat, f);
            assert(walk(cs, pending).0 == walk(rest, (pending - 1) as nat).0);
        } else {
            lemma_walk_survivors_free(rest, 0, f);
            let r = walk(rest, 0);
            assert(walk(cs, pending).0 == r.0.push(strip_one_dot(c)));
            assert forall|k: int, j: int|
                0 <= k < walk(cs, pending).0.len() && 0 <= j < walk(cs, pending).0[k].len()
                implies !f(walk(cs, pending).0[k][j]) by {
                if k < r.0.len() {
                    assert(walk(cs, pending).0[k] == r.0[k]);
                } else {
                    assert(walk(cs, pending).0[k] == strip_one_dot(c));
                    assert(strip_one_dot(c)[j] == c[j]);
                }
            }
        }
    }
}

/// Stripping one trailing dot from a component that is not empty, `.` or
/// `..` yields a clean component.
pub proof fn lemma_strip_one_dot_clean(c: Seq<char>)
    requires
        c.len() > 0,
        c != dot(),
        c != dotdot(),
    ensures
        walk_clean_component(strip_one_dot(c)),
{
    let r = strip_one_dot(c);
    if c.len() >= 1 && c.last() == '.' && !(c.len() >= 2 && c[c.len() - 2] == '.') {
        assert(c.len() >= 2) by {
            if c.len() == 1 {
                assert(c =~= dot());
            }
        }
        assert(r == c.drop_last());
        assert(r.len() == c.len() - 1);
        assert(r.len() >= 1);
        assert(r.last() == c[c.len() - 2]);
        assert(r.last() != '.');
        assert(r != dot() && r != dotdot());
        assert(strip_one_dot(r) == r);
    } else {
        assert(r == c);
        if c.last() == '.' {
            assert(c.len() >= 2 && c[c.len() - 2] == '.');
        }
        assert(strip_one_dot(r) == r);
    }
}

pub open spec fn is_dot_space(c: char) -> bool {
    c == '.' || c == ' '
}

/// Length of the sequence after trailing dots and spaces are dropped.
pub open spec fn trimmed_len(s: Seq<char>) -> nat
    decreases s.len(),
{
    if s.len() == 0 {
        0
    } else if is_dot_space(s.last()) {
        trimmed_len(s.drop_last())
    } else {
        s.len()
    }
}

pub proof fn lemma_trimmed_len_bounds(s: Seq<char>)
    ensures
        trimmed_len(s) <= s.len(),
        forall|j: int| trimmed_len(s) <= j < s.len() ==> is_dot_space(s[j]),
        trimmed_len(s) > 0 ==> !is_dot_space(s[trimmed_len(s) - 1]),
    decreases s.len(),
{
    if s.len() == 0 {
    } else if is_dot_space(s.last()) {
        lemma_trimmed_len_bounds(s.drop_last());
        assert(trimmed_len(s) == trimmed_len(s.drop_last()));
        assert forall|j: int| trimmed_len(s) <= j < s.len() implies is_dot_space(s[j]) by {
            if j < s.len() - 1 {
                assert(s[j] == s.drop_last()[j]);
            }
        }
        if trimmed_len(s) > 0 {
            assert(s[trimmed_len(s) - 1] == s.drop_last()[trimmed_len(s.drop_last()) - 1]);
        }
    } else {
    }
}

pub proof fn lemma_trimmed_len_is(s: Seq<char>, n: int)
    requires
        0 <= n <= s.len(),
        forall|j: int| n <= j < s.len() ==> is_dot_space(s[j]),
        n > 0 ==> !is_dot_space(s[n - 1]),
    ensures
        trimmed_len(s) == n,
    decreases s.len(),
{
    if s.len() == 0 {
    } else if is_dot_space(s.last()) {
        assert(n < s.len());
        lemma_trimmed_len_is(s.drop_last(), n);
    } else {
        assert(n == s.len());
    }
}

/// Trim trailing `.` and ` ` from a whole path, preserving a trailing bare
/// `.` or `..` component.
pub open spec fn spec_trim_full(s: Seq<char>) -> Seq<char> {
    let n = trimmed_len(s);
    if n == 0 {
        s
    } else {
        let suffix = s.skip(n as int);
        if (suffix == dot() || suffix == dotdot()) && is_win_sep(s[n - 1]) {
            s
        } else {
            s.take(n as int)
        }
    }
}

} // verus!
