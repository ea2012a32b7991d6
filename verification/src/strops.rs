//! Executable string operations behind the path types: splitting on
//! separators, the right-to-left cleaning walk, component stripping and
//! trailing trimming, each proved against the model.

use vstd::prelude::*;
use vstd::string::StrSliceExecFns;

use crate::model::{dot, dotdot, is_dot_space, join_with,
    lemma_join_push, lemma_split_on_first, lemma_trimmed_len_is, lemma_walk_cons, pair_sep_fn,
    split_on, strip_one_dot, trimmed_len, walk};
use crate::util::string_push_char;

verus! {

/// The character sequences denoted by a sequence of string slices.
pub open spec fn str_views(q: Seq<&str>) -> Seq<Seq<char>> {
    Seq::new(q.len(), |i: int| q[i]@)
}

/// Split a string at every occurrence of either separator character.
pub fn split_str_on<'a>(s: &'a str, a: char, b: char) -> (v: Vec<&'a str>)
    ensures
        str_views(v@) == split_on(s@, pair_sep_fn(a, b)),
        v@.len() >= 1,
{
    let f = Ghost(pair_sep_fn(a, b));
    let n = s.unicode_len();
    let mut v: Vec<&'a str> = Vec::new();
    let mut start: usize = 0;
    let mut i: usize = 0;
    proof {
        assert(s@.skip(0) =~= s@);
        assert(str_views(v@) =~= Seq::<Seq<char>>::empty());
        assert(str_views(v@) + split_on(s@, f@) =~= split_on(s@, f@));
    }
    while i < n
        invariant
            n == s@.len(),
            start <= i <= n,
            f@ == pair_sep_fn(a, b),
            str_views(v@) + split_on(s@.skip(start as int), f@) == split_on(s@, f@),
            forall|j: int| start <= j < i ==> !f@(s@[j]),
        decreases n - i,
    {
        let c = s.get_char(i);
        if c == a || c == b {
            let piece = s.substring_char(start, i);
            proof {
                let tail = s@.skip(start as int);
                lemma_split_on_first(tail, f@, i - start);
                assert(tail.take(i - start) =~= s@.subrange(start as int, i as int));
                assert(tail.skip(i - start + 1) =~= s@.skip(i as int + 1));
                assert(str_views(v@.push(piece)) =~= str_views(v@).push(piece@));
                assert(str_views(v@.push(piece)) + split_on(s@.skip(i as int + 1), f@) =~= str_views(
                    v@,
                ) + split_on(s@.skip(start as int), f@));
            }
            v.push(piece);
            start = i + 1;
        }
        i += 1;
    }
    let piece = s.substring_char(start, n);
    proof {
        let tail = s@.skip(start as int);
        lemma_split_on_first(tail, f@, n - start);
        assert(tail =~= s@.subrange(start as int, n as int));
        assert(str_views(v@.push(piece)) =~= str_views(v@).push(piece@));
        assert(str_views(v@.push(piece)) =~= str_views(v@) + seq![tail]);
    }
    v.push(piece);
    v
}

/// Whether the string is exactly `.`.
pub fn is_dot_str(c: &str) -> (r: bool)
    ensures
        r == (c@ == dot()),
{
    let n = c.unicode_len();
    if n == 1 && c.get_char(0) == '.' {
        proof {
            assert(c@ =~= dot());
        }
        true
    } else {
        proof {
            if c@ == dot() {
                assert(c@.len() == 1 && c@[0] == '.');
            }
        }
        false
    }
}

/// Whether the string is exactly `..`.
pub fn is_dotdot_str(c: &str) -> (r: bool)
    ensures
        r == (c@ == dotdot()),
{
    let n = c.unicode_len();
    if n == 2 && c.get_char(0) == '.' && c.get_char(1) == '.' {
        proof {
            assert(c@ =~= dotdot());
        }
        true
    } else {
        proof {
            if c@ == dotdot() {
                assert(c@.len() == 2 && c@[0] == '.' && c@[1] == '.');
            }
        }
        false
    }
}

/// Strip a single trailing dot, but not two or more dots.
pub fn strip_dot_str<'a>(c: &'a str) -> (r: &'a str)
    ensures
        r@ == strip_one_dot(c@),
{
    let n = c.unicode_len();
    if n >= 1 && c.get_char(n - 1) == '.' && !(n >= 2 && c.get_char(n - 2) == '.') {
        let r = c.substring_char(0, n - 1);
        proof {
            assert(r@ =~= c@.drop_last());
        }
        r
    } else {
        c
    }
}

/// The cleaning walk over a component list, right to left: `.` and empty
/// components are dropped, `..` components are counted, and each pending
/// `..` cancels the nearest component to its left; survivors lose a single
/// trailing dot. Returns the survivors in path order and the count of `..`
/// left unresolved at the left end.
pub fn walk_strs<'a>(comps: &Vec<&'a str>, pending: usize) -> (r: (Vec<&'a str>, usize))
    requires
        pending + comps@.len() <= usize::MAX,
    ensures
        str_views(r.0@) == walk(str_views(comps@), pending as nat).0,
        r.1 as nat == walk(str_views(comps@), pending as nat).1,
{
    let ghost all = str_views(comps@);
    let mut acc: Vec<&'a str> = Vec::new();
    let mut pend: usize = pending;
    let mut i: usize = comps.len();
    proof {
        assert(all.skip(i as int) =~= Seq::<Seq<char>>::empty());
        assert(walk(all.skip(i as int), pending as nat).0 =~= str_views(acc@));
    }
    while i > 0
        invariant
            i <= comps@.len(),
            all == str_views(comps@),
            pending + comps@.len() <= usize::MAX,
            pend <= pending + (comps@.len() - i),
            str_views(acc@) == walk(all.skip(i as int), pending as nat).0,
            pend as nat == walk(all.skip(i as int), pending as nat).1,
        decreases i,
    {
        i -= 1;
        let c = comps[i];
        proof {
            assert(all.skip(i as int) =~= seq![c@] + all.skip(i as int + 1));
            lemma_walk_cons(c@, all.skip(i as int + 1), pending as nat);
        }
        if c.unicode_len() == 0 || is_dot_str(c) {
        } else if is_dotdot_str(c) {
            pend += 1;
        } else if pend > 0 {
            pend -= 1;
        } else {
            let stripped = strip_dot_str(c);
            proof {
                assert(acc@.insert(0, stripped) =~= seq![stripped] + acc@);
                assert(str_views(seq![stripped] + acc@) =~= seq![strip_one_dot(c@)] + str_views(
                    acc@,
                ));
            }
            acc.insert(0, stripped);
        }
    }
    proof {
        assert(all.skip(0) =~= all);
    }
    (acc, pend)
}

/// The length of the string after trailing dots and spaces are dropped.
pub fn trimmed_len_str(s: &str) -> (n: usize)
    ensures
        n as nat == trimmed_len(s@),
        n as int <= s@.len(),
{
    let len = s.unicode_len();
    let mut n: usize = len;
    while n > 0
        invariant
            n <= len,
            len == s@.len(),
            forall|j: int| n <= j < len ==> is_dot_space(s@[j]),
        decreases n,
    {
        let c = s.get_char(n - 1);
        if c == '.' || c == ' ' {
            n -= 1;
        } else {
            proof {
                lemma_trimmed_len_is(s@, n as int);
            }
            return n;
        }
    }
    proof {
        lemma_trimmed_len_is(s@, 0);
    }
    0
}

/// Join string slices with a separator character.
pub fn join_strs(v: &Vec<&str>, sep: char) -> (r: String)
    ensures
        r@ == join_with(str_views(v@), sep),
{
    let mut r = String::new();
    let mut i: usize = 0;
    proof {
        assert(str_views(v@).take(0) =~= Seq::<Seq<char>>::empty());
    }
    while i < v.len()
        invariant
            i <= v@.len(),
            r@ == join_with(str_views(v@).take(i as int), sep),
        decreases v@.len() - i,
    {
        proof {
            let q = str_views(v@);
            assert(q.take(i + 1) =~= q.take(i as int).push(q[i as int]));
            lemma_join_push(q.take(i as int), sep, q[i as int]);
        }
        if i > 0 {
            string_push_char(&mut r, sep);
        }
        r.append(v[i]);
        i += 1;
    }
    proof {
        assert(str_views(v@).take(v@.len() as int) =~= str_views(v@));
    }
    r
}

/// The index after the last occurrence of either character, or zero when
/// neither occurs: `s@.take(r)` ends just past the last match.
pub fn after_last_of(s: &str, a: char, b: char) -> (r: usize)
    ensures
        r == 0 ==> forall|j: int| 0 <= j < s@.len() ==> s@[j] != a && s@[j] != b,
        r > 0 ==> r <= s@.len() && (s@[r - 1] == a || s@[r - 1] == b) && forall|j: int|
            r <= j < s@.len() ==> s@[j] != a && s@[j] != b,
{
    let len = s.unicode_len();
    let mut n: usize = len;
    while n > 0
        invariant
            n <= len,
            len == s@.len(),
            forall|j: int| n <= j < len ==> s@[j] != a && s@[j] != b,
        decreases n,
    {
        let c = s.get_char(n - 1);
        if c == a || c == b {
            return n;
        }
        n -= 1;
    }
    0
}

} // verus!
