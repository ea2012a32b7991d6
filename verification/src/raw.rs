//! String paths and buffers for the Windows side: components split on `\`,
//! the reverse `..`-accounting walk over either separator, round-trip safety
//! checks, and trailing trimming.

use vstd::prelude::*;
use vstd::string::{StrSliceExecFns, StringExecFns};

use crate::model::{dotdot, eq_sep_fn, find_last, is_win_sep, join_with, lemma_find_last_is,
    lemma_split_on_congruence, lemma_split_on_first, lemma_walk_cons, pair_sep_fn, split_on,
    spec_trim_full, trimmed_len, walk, win_sep_fn};
use crate::pure::iter::strip_sep_suffix;
use crate::pure::spec_push;
use crate::strops::{after_last_of, join_strs, split_str_on, str_views, trimmed_len_str,
    walk_strs};
use crate::util::string_push_char;

verus! {

/// The character sequences denoted by a sequence of path slices.
pub open spec fn path_views(q: Seq<StrPath>) -> Seq<Seq<char>> {
    Seq::new(q.len(), |i: int| q[i]@)
}

/// A component that survives the round trip from a verbatim path to a Win32
/// path and back without changing its meaning: non-empty, not ending in a
/// dot or space, and free of `/` and the null character.
pub open spec fn spec_component_win32_safe(c: Seq<char>) -> bool {
    &&& c.len() > 0
    &&& !(c.last() == '.' || c.last() == ' ')
    &&& forall|i: int| 0 <= i < c.len() ==> c[i] != '/' && c[i] != '\0'
}

/// A whole path is safe when, after one trailing `\` is dropped, every
/// component between `\` separators is safe.
pub open spec fn spec_win32_safe(s: Seq<char>) -> bool {
    forall|k: int|
        0 <= k < split_on(strip_sep_suffix(s, '\\'), eq_sep_fn('\\')).len()
            ==> spec_component_win32_safe(
            #[trigger] split_on(strip_sep_suffix(s, '\\'), eq_sep_fn('\\'))[k],
        )
}

/// A string path or component, not including any prefix.
#[derive(Debug, Clone, Copy)]
pub struct StrPath<'a> {
    path: &'a str,
}

impl<'a> View for StrPath<'a> {
    type V = Seq<char>;

    closed spec fn view(&self) -> Seq<char> {
        self.path@
    }
}

impl<'a> StrPath<'a> {
    pub fn from_str(path: &'a str) -> (r: Self)
        ensures
            r@ == path@,
    {
        Self { path }
    }

    pub fn as_str(&self) -> (r: &'a str)
        ensures
            r@ == self@,
    {
        self.path
    }

    /// The path's text for display, optionally with each `\` replaced by a
    /// `/`; the replacement form ends with a trailing `/`.
    pub fn win_display(&self, force_unix_separators: bool) -> (r: String)
        ensures
            !force_unix_separators ==> r@ == self@,
            force_unix_separators ==> r@ == join_with(
                split_on(self@, eq_sep_fn('\\')),
                '/',
            ) + seq!['/'],
    {
        if !force_unix_separators {
            return String::from_str(self.path);
        }
        let v = split_str_on(self.path, '\\', '\\');
        proof {
            assert forall|c: char| #[trigger]
                pair_sep_fn('\\', '\\')(c) == eq_sep_fn('\\')(c) by {}
            lemma_split_on_congruence(self.path@, pair_sep_fn('\\', '\\'), eq_sep_fn('\\'));
        }
        let mut r = join_strs(&v, '/');
        string_push_char(&mut r, '/');
        r
    }

    pub fn is_empty(&self) -> (r: bool)
        ensures
            r == (self@.len() == 0),
    {
        self.path.unicode_len() == 0
    }

    /// The path's length in characters.
    pub fn len(&self) -> (r: usize)
        ensures
            r == self@.len(),
    {
        self.path.unicode_len()
    }

    pub fn ends_with_char(&self, char: char) -> (r: bool)
        ensures
            r == (self@.len() > 0 && self@.last() == char),
    {
        let n = self.path.unicode_len();
        n > 0 && self.path.get_char(n - 1) == char
    }

    /// The components between `\` separators, in order.
    pub fn verbatim_components(&self) -> (r: Vec<StrPath<'a>>)
        ensures
            path_views(r@) == split_on(self@, eq_sep_fn('\\')),
    {
        let v = split_str_on(self.path, '\\', '\\');
        proof {
            assert forall|c: char| #[trigger]
                pair_sep_fn('\\', '\\')(c) == eq_sep_fn('\\')(c) by {}
            lemma_split_on_congruence(self.path@, pair_sep_fn('\\', '\\'), eq_sep_fn('\\'));
        }
        let mut out: Vec<StrPath<'a>> = Vec::new();
        let mut i: usize = 0;
        while i < v.len()
            invariant
                i <= v@.len(),
                out@.len() == i,
                forall|k: int| 0 <= k < i ==> #[trigger] out@[k]@ == str_views(v@)[k],
            decreases v@.len() - i,
        {
            out.push(StrPath { path: v[i] });
            proof {
                assert(out@[i as int]@ == v@[i as int]@);
            }
            i += 1;
        }
        proof {
            assert forall|k: int| 0 <= k < out@.len() implies path_views(out@)[k] == str_views(
                v@,
            )[k] by {
                assert(out@[k]@ == str_views(v@)[k]);
            }
            assert(path_views(out@) =~= str_views(v@));
        }
        out
    }

    /// The components between `\` separators, last first.
    pub fn reverse_verbatim_components(&self) -> (r: Vec<StrPath<'a>>)
        ensures
            path_views(r@) == split_on(self@, eq_sep_fn('\\')).reverse(),
    {
        let v = self.verbatim_components();
        let n = v.len();
        let mut out: Vec<StrPath<'a>> = Vec::new();
        let mut i: usize = n;
        while i > 0
            invariant
                i <= n,
                n == v@.len(),
                path_views(v@) == split_on(self@, eq_sep_fn('\\')),
                out@.len() == n - i,
                forall|k: int| 0 <= k < n - i ==> #[trigger] out@[k]@ == v@[n - 1 - k]@,
            decreases i,
        {
            i -= 1;
            out.push(v[i]);
            proof {
                assert(out@[n - 1 - i as int]@ == v@[i as int]@);
            }
        }
        proof {
            assert forall|k: int| 0 <= k < out@.len() implies path_views(out@)[k] == path_views(
                v@,
            ).reverse()[k] by {
                assert(out@[k]@ == v@[n - 1 - k]@);
                assert(path_views(v@).reverse()[k] == path_views(v@)[n - 1 - k]);
            }
            assert(path_views(out@) =~= path_views(v@).reverse());
        }
        out
    }

    /// The path before the last `\` separator, when one occurs.
    pub fn parent_verbatim(&self) -> (r: Option<StrPath<'a>>)
        ensures
            (r is Some) == (find_last(self@, eq_sep_fn('\\')) >= 0),
            r matches Some(p) ==> p@ == self@.take(find_last(self@, eq_sep_fn('\\'))),
    {
        let p = after_last_of(self.path, '\\', '\\');
        proof {
            lemma_find_last_is(self.path@, eq_sep_fn('\\'), p - 1);
        }
        if p == 0 {
            None
        } else {
            let head = self.path.substring_char(0, p - 1);
            proof {
                assert(head@ =~= self@.take(p - 1));
            }
            Some(StrPath { path: head })
        }
    }

    /// Iterate the ancestors of the path, in reverse order: a path ending
    /// with a separator yields an empty component first, so that it is
    /// preserved; `.` and empty components are dropped, `..` components are
    /// counted into `skip`, and each pending count cancels the following
    /// (that is, textually preceding) component; survivors lose a single
    /// trailing dot.
    ///
    /// The value of `skip` holds the remaining number of `..` components
    /// once the walk has finished.
    pub fn win32_ancestors(&self, skip: &mut usize) -> (r: Vec<StrPath<'a>>)
        requires
            *old(skip) + self@.len() + 1 <= usize::MAX,
        ensures
            ({
                let w = walk(split_on(self@, win_sep_fn()), *old(skip) as nat);
                let trail = if self@.len() > 0 && crate::model::is_win_sep(self@.last()) {
                    seq![Seq::<char>::empty()]
                } else {
                    Seq::<Seq<char>>::empty()
                };
                &&& *final(skip) == w.1
                &&& path_views(r@) == trail + w.0.reverse()
            }),
    {
        let comps = split_str_on(self.path, '\\', '/');
        proof {
            assert forall|c: char| #[trigger]
                pair_sep_fn('\\', '/')(c) == win_sep_fn()(c) by {}
            lemma_split_on_congruence(self.path@, pair_sep_fn('\\', '/'), win_sep_fn());
            crate::model::lemma_split_on_count(self.path@, win_sep_fn());
        }
        let (survivors, residual) = walk_strs(&comps, *skip);
        *skip = residual;
        let ghost w0 = walk(split_on(self@, win_sep_fn()), *old(skip) as nat).0;
        let mut out: Vec<StrPath<'a>> = Vec::new();
        let n = self.path.unicode_len();
        let ghost trail: Seq<Seq<char>> = if self@.len() > 0 && crate::model::is_win_sep(
            self@.last(),
        ) {
            seq![Seq::<char>::empty()]
        } else {
            Seq::<Seq<char>>::empty()
        };
        let ghost t: int = trail.len() as int;
        if n > 0 && crate::kind::win_sep(self.path.get_char(n - 1)) {
            proof {
                reveal_strlit("");
            }
            out.push(StrPath { path: "" });
            proof {
                assert(out@[0]@ =~= Seq::<char>::empty());
            }
        }
        let m = survivors.len();
        let mut i: usize = m;
        while i > 0
            invariant
                i <= m,
                m == survivors@.len(),
                str_views(survivors@) == w0,
                0 <= t <= 1,
                out@.len() == t + (m - i),
                t == 1 ==> out@[0]@ == Seq::<char>::empty(),
                t == trail.len(),
                t == 1 ==> trail == seq![Seq::<char>::empty()],
                forall|k: int| t <= k < out@.len() ==> #[trigger] out@[k]@ == w0[m - 1 - (k - t)],
            decreases i,
        {
            i -= 1;
            out.push(StrPath { path: survivors[i] });
            proof {
                assert(out@[out@.len() - 1]@ == str_views(survivors@)[i as int]);
            }
        }
        proof {
            assert forall|k: int| 0 <= k < out@.len() implies path_views(out@)[k] == (trail
                + w0.reverse())[k] by {
                if k < t {
                    assert(out@[k]@ == Seq::<char>::empty());
                } else {
                    assert(out@[k]@ == w0[m - 1 - (k - t)]);
                    assert((trail + w0.reverse())[k] == w0.reverse()[k - t]);
                    assert(w0.reverse()[k - t] == w0[m - 1 - (k - t)]);
                }
            }
            assert(path_views(out@) =~= trail + w0.reverse());
        }
        out
    }

    /// Used for checking if a path can be round tripped through
    /// verbatim, Win32 and back to verbatim without changing its meaning.
    ///
    /// This assumes the final component may be used as a file name. It does
    /// not account for special DOS device names.
    pub fn is_win32_safe(&self) -> (r: bool)
        ensures
            r == spec_win32_safe(self@),
    {
        let n = self.path.unicode_len();
        let stripped = if n > 0 && self.path.get_char(n - 1) == '\\' {
            let t = self.path.substring_char(0, n - 1);
            proof {
                assert(t@ =~= self@.drop_last());
            }
            t
        } else {
            self.path
        };
        let v = split_str_on(stripped, '\\', '\\');
        proof {
            assert forall|c: char| #[trigger]
                pair_sep_fn('\\', '\\')(c) == eq_sep_fn('\\')(c) by {}
            lemma_split_on_congruence(stripped@, pair_sep_fn('\\', '\\'), eq_sep_fn('\\'));
        }
        let mut i: usize = 0;
        while i < v.len()
            invariant
                i <= v@.len(),
                str_views(v@) == split_on(strip_sep_suffix(self@, '\\'), eq_sep_fn('\\')),
                forall|k: int|
                    0 <= k < i ==> spec_component_win32_safe(#[trigger] str_views(v@)[k]),
            decreases v@.len() - i,
        {
            if !StrPath::from_str(v[i]).is_component_win32_safe() {
                proof {
                    assert(!spec_component_win32_safe(str_views(v@)[i as int]));
                }
                return false;
            }
            i += 1;
        }
        true
    }

    /// Whether one component is safe for a Win32 round trip.
    pub fn is_component_win32_safe(&self) -> (r: bool)
        ensures
            r == spec_component_win32_safe(self@),
    {
        let n = self.path.unicode_len();
        if n == 0 {
            return false;
        }
        let last = self.path.get_char(n - 1);
        if last == '.' || last == ' ' {
            return false;
        }
        let p = after_last_of(self.path, '/', '\0');
        proof {
            if p > 0 {
                assert(!(self@[p - 1] != '/' && self@[p - 1] != '\0'));
            }
        }
        p == 0
    }

    /// Removes trailing dots and spaces (`.` and ` `).
    pub fn trim_filename(&self) -> (r: StrPath<'a>)
        ensures
            r@ == self@.take(trimmed_len(self@) as int),
    {
        let n = trimmed_len_str(self.path);
        let t = self.path.substring_char(0, n);
        proof {
            assert(t@ =~= self@.take(trimmed_len(self@) as int));
        }
        StrPath { path: t }
    }
}

/// Parent-reference accounting at the walk: a prepended `..\` is never
/// cancelled. Walking the components of `..\` ++ `p` yields exactly the
/// survivors that walking `p` yields, with the leftover `..` count one
/// higher, and the trailing-separator flag unchanged; through
/// `win32_ancestors`' contract, the call on the prefixed path returns the
/// same component vector and leaves `skip` exactly one higher.
pub proof fn lemma_win32_ancestors_parent_accounting(p: Seq<char>, skip: nat)
    requires
        p.len() > 0,
    ensures
        ({
            let p2 = seq!['.', '.', '\\'] + p;
            let w = walk(split_on(p, win_sep_fn()), skip);
            let w2 = walk(split_on(p2, win_sep_fn()), skip);
            &&& w2.0 == w.0
            &&& w2.1 == w.1 + 1
            &&& is_win_sep(p2.last()) == is_win_sep(p.last())
        }),
{
    let f = win_sep_fn();
    let p2 = seq!['.', '.', '\\'] + p;
    assert(p2[0] == '.' && p2[1] == '.' && p2[2] == '\\');
    lemma_split_on_first(p2, f, 2);
    assert(p2.take(2) =~= dotdot());
    assert(p2.skip(3) =~= p);
    assert(split_on(p2, f) == seq![dotdot()] + split_on(p, f));
    lemma_walk_cons(dotdot(), split_on(p, f), skip);
    assert(p2.last() == p[p.len() - 1]);
}

/// An owned, growable string path.
#[derive(Debug)]
pub struct StrPathBuffer {
    path: String,
}

impl View for StrPathBuffer {
    type V = Seq<char>;

    closed spec fn view(&self) -> Seq<char> {
        self.path@
    }
}

impl StrPathBuffer {
    pub fn new() -> (r: Self)
        ensures
            r@.len() == 0,
    {
        Self { path: String::new() }
    }

    pub fn from_string(str: String) -> (r: Self)
        ensures
            r@ == str@,
    {
        Self { path: str }
    }

    pub fn as_str(&self) -> (r: &str)
        ensures
            r@ == self@,
    {
        self.path.as_str()
    }

    pub fn as_string(&self) -> (r: &String)
        ensures
            r@ == self@,
    {
        &self.path
    }

    /// The buffer viewed as a path.
    pub fn as_path(&self) -> (r: StrPath<'_>)
        ensures
            r@ == self@,
    {
        StrPath::from_str(self.path.as_str())
    }

    pub fn push(&mut self, str: &StrPath<'_>)
        ensures
            final(self)@ == old(self)@ + str@,
    {
        self.path.append(str.as_str());
    }

    pub fn push_char(&mut self, char: char)
        ensures
            final(self)@ == old(self)@ + seq![char],
    {
        string_push_char(&mut self.path, char);
    }

    /// Append a component, with a `\` separator in between unless the
    /// buffer is empty or already ends with one.
    pub fn push_component(&mut self, str: &StrPath<'_>)
        ensures
            final(self)@ == spec_push(old(self)@, str@, '\\'),
    {
        let n = self.path.as_str().unicode_len();
        if !(n == 0 || self.path.as_str().get_char(n - 1) == '\\') {
            string_push_char(&mut self.path, '\\');
        }
        self.path.append(str.as_str());
    }

    /// Remove the last character.
    pub fn pop(&mut self) -> (r: Option<char>)
        ensures
            (r is Some) == (old(self)@.len() > 0),
            old(self)@.len() == 0 ==> final(self)@ == old(self)@,
            old(self)@.len() > 0 ==> final(self)@ == old(self)@.drop_last() && r == Some(
                old(self)@.last(),
            ),
    {
        let n = self.path.as_str().unicode_len();
        if n == 0 {
            return None;
        }
        let c = self.path.as_str().get_char(n - 1);
        let rest = String::from_str(self.path.as_str().substring_char(0, n - 1));
        proof {
            assert(rest@ =~= self@.drop_last());
        }
        self.path = rest;
        Some(c)
    }

    /// Truncate at the last `\` separator, removing it and what follows.
    pub fn pop_verbatim_component(&mut self) -> (r: bool)
        ensures
            r == (find_last(old(self)@, eq_sep_fn('\\')) >= 0),
            r ==> final(self)@ == old(self)@.take(find_last(old(self)@, eq_sep_fn('\\'))),
            !r ==> final(self)@ == old(self)@,
    {
        let p = after_last_of(self.path.as_str(), '\\', '\\');
        proof {
            lemma_find_last_is(self.path@, eq_sep_fn('\\'), p - 1);
        }
        if p == 0 {
            false
        } else {
            let rest = String::from_str(self.path.as_str().substring_char(0, p - 1));
            proof {
                assert(rest@ =~= self@.take(p - 1));
            }
            self.path = rest;
            true
        }
    }
}

/// Strip trailing `.` and ` ` (space) from a full path.
///
/// This will preserve trailing `.` and `..` components.
pub fn trim_full_path(path: &str) -> (r: &str)
    ensures
        r@ == spec_trim_full(path@),
{
    let n = trimmed_len_str(path);
    let len = path.unicode_len();
    if n == 0 {
        return path;
    }
    let suffix_len = len - n;
    let dot_suffix = (suffix_len == 1 && path.get_char(n) == '.') || (suffix_len == 2
        && path.get_char(n) == '.' && path.get_char(n + 1) == '.');
    proof {
        let suf = path@.skip(n as int);
        assert(suf.len() == len - n);
        if suffix_len == 1 && path@[n as int] == '.' {
            assert(suf =~= crate::model::dot());
        }
        if suffix_len == 2 && path@[n as int] == '.' && path@[n as int + 1] == '.' {
            assert(suf =~= dotdot());
        }
        if suf == crate::model::dot() {
            assert(path@[n as int] == suf[0]);
        }
        if suf == dotdot() {
            assert(path@[n as int] == suf[0] && path@[n as int + 1] == suf[1]);
        }
        assert(dot_suffix == (suf == crate::model::dot() || suf == dotdot()));
    }
    if dot_suffix && (path.get_char(n - 1) == '\\' || path.get_char(n - 1) == '/') {
        path
    } else {
        let r = path.substring_char(0, n);
        proof {
            assert(r@ =~= path@.take(n as int));
        }
        r
    }
}

} // verus!
