//! POSIX-style absolute-ification, lexically: a path is resolved against a
//! given absolute working directory by text inspection alone. Symlinks are
//! never consulted; the caller obtains the working directory itself.

use vstd::prelude::*;
use vstd::string::{StrSliceExecFns, StringExecFns};

use crate::model::{dot, dotdot, eq_sep_fn, find_last, lemma_find_last_is,
    lemma_split_on_congruence, pair_sep_fn, split_on};
use crate::pure::spec_push;
use crate::strops::{is_dot_str, is_dotdot_str, split_str_on, str_views};

verus! {

/// The root a POSIX path hangs from: two leading slashes (but not three or
/// more) are kept as an implementation-defined root, any other leading
/// slash is the plain root.
pub open spec fn spec_posix_root(s: Seq<char>) -> Seq<char> {
    if s.len() >= 2 && s[0] == '/' && s[1] == '/' && !(s.len() >= 3 && s[2] == '/') {
        seq!['/', '/']
    } else {
        seq!['/']
    }
}

/// The components that POSIX pathname resolution walks: the pieces between
/// slashes, with empty and `.` pieces normalized away.
pub open spec fn spec_posix_comps(s: Seq<char>) -> Seq<Seq<char>>
    decreases split_on(s, eq_sep_fn('/')).len(),
{
    keep_comps(split_on(s, eq_sep_fn('/')))
}

/// Drop empty and `.` components, keeping the rest in order.
pub open spec fn keep_comps(cs: Seq<Seq<char>>) -> Seq<Seq<char>>
    decreases cs.len(),
{
    if cs.len() == 0 {
        Seq::empty()
    } else {
        let r = keep_comps(cs.drop_last());
        if cs.last().len() > 0 && cs.last() != dot() {
            r.push(cs.last())
        } else {
            r
        }
    }
}

/// Removing the last component, never rising above the root.
pub open spec fn spec_posix_pop(b: Seq<char>, root_len: int) -> Seq<char> {
    if b.len() <= root_len {
        b
    } else {
        let k = find_last(b, eq_sep_fn('/'));
        if k < root_len {
            b.take(root_len)
        } else {
            b.take(k)
        }
    }
}

/// Appending components one by one, without interpreting `..`.
pub open spec fn spec_posix_fold_plain(b: Seq<char>, cs: Seq<Seq<char>>) -> Seq<char>
    decreases cs.len(),
{
    if cs.len() == 0 {
        b
    } else {
        spec_push(spec_posix_fold_plain(b, cs.drop_last()), cs.last(), '/')
    }
}

/// Appending components one by one, `..` popping the parent component.
pub open spec fn spec_posix_fold_lex(b: Seq<char>, cs: Seq<Seq<char>>, root_len: int) -> Seq<char>
    decreases cs.len(),
{
    if cs.len() == 0 {
        b
    } else {
        let r = spec_posix_fold_lex(b, cs.drop_last(), root_len);
        if cs.last() == dotdot() {
            spec_posix_pop(r, root_len)
        } else {
            spec_push(r, cs.last(), '/')
        }
    }
}

/// The base a path is resolved against: its own root when absolute, else
/// the normalized working directory.
pub open spec fn spec_posix_base(path: Seq<char>, cwd: Seq<char>) -> Seq<char> {
    if path.len() > 0 && path[0] == '/' {
        spec_posix_root(path)
    } else {
        spec_posix_fold_plain(spec_posix_root(cwd), spec_posix_comps(cwd))
    }
}

/// The base of the lexical form: the working directory is itself resolved
/// lexically.
pub open spec fn spec_posix_base_lex(path: Seq<char>, cwd: Seq<char>) -> Seq<char> {
    if path.len() > 0 && path[0] == '/' {
        spec_posix_root(path)
    } else {
        spec_posix_fold_lex(
            spec_posix_root(cwd),
            spec_posix_comps(cwd),
            spec_posix_root(cwd).len() as int,
        )
    }
}

/// A trailing slash is meaningful to pathname resolution and is kept.
pub open spec fn spec_posix_trail(folded: Seq<char>, path: Seq<char>) -> Seq<char> {
    if path.len() > 0 && path.last() == '/' {
        spec_push(folded, Seq::empty(), '/')
    } else {
        folded
    }
}

/// What making a path absolute without resolving `..` returns.
pub open spec fn spec_posix_absolute_from(path: Seq<char>, cwd: Seq<char>) -> Seq<char> {
    spec_posix_trail(
        spec_posix_fold_plain(spec_posix_base(path, cwd), spec_posix_comps(path)),
        path,
    )
}

/// What making a path lexically absolute returns: `..` components pop the
/// parent component instead of being kept.
pub open spec fn spec_posix_lexically_absolute_from(path: Seq<char>, cwd: Seq<char>) -> Seq<char> {
    spec_posix_trail(
        spec_posix_fold_lex(
            spec_posix_base_lex(path, cwd),
            spec_posix_comps(path),
            spec_posix_root(if path.len() > 0 && path[0] == '/' {
                path
            } else {
                cwd
            }).len() as int,
        ),
        path,
    )
}

/// The filtered components of a POSIX path.
fn posix_components<'a>(s: &'a str) -> (v: Vec<&'a str>)
    ensures
        str_views(v@) == spec_posix_comps(s@),
{
    let raw = split_str_on(s, '/', '/');
    proof {
        assert forall|c: char| #[trigger] pair_sep_fn('/', '/')(c) == eq_sep_fn('/')(c) by {}
        lemma_split_on_congruence(s@, pair_sep_fn('/', '/'), eq_sep_fn('/'));
    }
    let mut v: Vec<&'a str> = Vec::new();
    let mut i: usize = 0;
    proof {
        assert(str_views(raw@).take(0) =~= Seq::<Seq<char>>::empty());
        assert(keep_comps(Seq::<Seq<char>>::empty()) =~= str_views(v@));
    }
    while i < raw.len()
        invariant
            i <= raw@.len(),
            str_views(raw@) == split_on(s@, eq_sep_fn('/')),
            str_views(v@) == keep_comps(str_views(raw@).take(i as int)),
        decreases raw@.len() - i,
    {
        let c = raw[i];
        proof {
            assert(str_views(raw@).take(i + 1).drop_last() =~= str_views(raw@).take(i as int));
            assert(str_views(raw@).take(i + 1).last() == c@);
        }
        if c.unicode_len() > 0 && !is_dot_str(c) {
            v.push(c);
            proof {
                assert(str_views(v@) =~= keep_comps(str_views(raw@).take(i as int)).push(c@));
            }
        }
        i += 1;
    }
    proof {
        assert(str_views(raw@).take(raw@.len() as int) =~= str_views(raw@));
    }
    v
}

/// The root of a path known to begin with a slash.
fn posix_root(s: &str) -> (r: &'static str)
    ensures
        r@ == spec_posix_root(s@),
{
    proof {
        reveal_strlit("/");
        reveal_strlit("//");
    }
    let n = s.unicode_len();
    if n >= 2 && s.get_char(0) == '/' && s.get_char(1) == '/' && !(n >= 3 && s.get_char(2)
        == '/') {
        proof {
            assert("//"@ =~= spec_posix_root(s@));
        }
        "//"
    } else {
        proof {
            assert("/"@ =~= spec_posix_root(s@));
        }
        "/"
    }
}

/// Push one component onto the buffer, with a slash in between unless one
/// is already there.
fn posix_push(b: &mut String, c: &str)
    ensures
        final(b)@ == spec_push(old(b)@, c@, '/'),
{
    proof {
        reveal_strlit("/");
    }
    let n = b.as_str().unicode_len();
    if n > 0 && b.as_str().get_char(n - 1) != '/' {
        b.append("/");
    }
    b.append(c);
}

/// Remove the last component, never rising above the root.
fn posix_pop(b: &mut String, root_len: usize)
    ensures
        final(b)@ == spec_posix_pop(old(b)@, root_len as int),
{
    let n = b.as_str().unicode_len();
    if n <= root_len {
        return ;
    }
    let p = crate::strops::after_last_of(b.as_str(), '/', '/');
    proof {
        lemma_find_last_is(b@, eq_sep_fn('/'), p - 1);
    }
    let cut = if p == 0 || p - 1 < root_len {
        root_len
    } else {
        p - 1
    };
    let r = String::from_str(b.as_str().substring_char(0, cut));
    proof {
        assert(r@ =~= b@.take(cut as int));
    }
    *b = r;
}

/// Make a POSIX path absolute against the given working directory without
/// changing its meaning: `.` and empty components are normalized away, `..`
/// components are kept.
pub fn posix_absolute_from(path: &str, cwd: &str) -> (r: String)
    requires
        cwd@.len() > 0,
        cwd@[0] == '/',
    ensures
        r@ == spec_posix_absolute_from(path@, cwd@),
{
    let n = path.unicode_len();
    let mut b: String;
    if n > 0 && path.get_char(0) == '/' {
        b = String::from_str(posix_root(path));
    } else {
        b = String::from_str(posix_root(cwd));
        let cwd_comps = posix_components(cwd);
        let mut i: usize = 0;
        proof {
            assert(str_views(cwd_comps@).take(0) =~= Seq::<Seq<char>>::empty());
        }
        while i < cwd_comps.len()
            invariant
                i <= cwd_comps@.len(),
                str_views(cwd_comps@) == spec_posix_comps(cwd@),
                b@ == spec_posix_fold_plain(
                    spec_posix_root(cwd@),
                    str_views(cwd_comps@).take(i as int),
                ),
            decreases cwd_comps@.len() - i,
        {
            proof {
                assert(str_views(cwd_comps@).take(i + 1).drop_last() =~= str_views(
                    cwd_comps@,
                ).take(i as int));
                assert(str_views(cwd_comps@).take(i + 1).last() == cwd_comps@[i as int]@);
            }
            posix_push(&mut b, cwd_comps[i]);
            i += 1;
        }
        proof {
            assert(str_views(cwd_comps@).take(cwd_comps@.len() as int) =~= str_views(cwd_comps@));
        }
    }
    let comps = posix_components(path);
    let mut i: usize = 0;
    proof {
        assert(str_views(comps@).take(0) =~= Seq::<Seq<char>>::empty());
    }
    while i < comps.len()
        invariant
            i <= comps@.len(),
            str_views(comps@) == spec_posix_comps(path@),
            b@ == spec_posix_fold_plain(
                spec_posix_base(path@, cwd@),
                str_views(comps@).take(i as int),
            ),
        decreases comps@.len() - i,
    {
        proof {
            assert(str_views(comps@).take(i + 1).drop_last() =~= str_views(comps@).take(i as int));
            assert(str_views(comps@).take(i + 1).last() == comps@[i as int]@);
        }
        posix_push(&mut b, comps[i]);
        i += 1;
    }
    proof {
        assert(str_views(comps@).take(comps@.len() as int) =~= str_views(comps@));
    }
    if n > 0 && path.get_char(n - 1) == '/' {
        proof {
            reveal_strlit("");
        }
        posix_push(&mut b, "");
    }
    b
}

/// Make a POSIX path lexically absolute against the given working
/// directory: unlike [`posix_absolute_from`] this resolves `..` components
/// by popping the parent component, which may name a different file than
/// the OS would resolve.
pub fn posix_lexically_absolute_from(path: &str, cwd: &str) -> (r: String)
    requires
        cwd@.len() > 0,
        cwd@[0] == '/',
    ensures
        r@ == spec_posix_lexically_absolute_from(path@, cwd@),
{
    let n = path.unicode_len();
    let mut b: String;
    let root_len: usize;
    if n > 0 && path.get_char(0) == '/' {
        let root = posix_root(path);
        root_len = root.unicode_len();
        b = String::from_str(root);
    } else {
        let root = posix_root(cwd);
        root_len = root.unicode_len();
        b = String::from_str(root);
        let cwd_comps = posix_components(cwd);
        let mut i: usize = 0;
        proof {
            assert(str_views(cwd_comps@).take(0) =~= Seq::<Seq<char>>::empty());
        }
        while i < cwd_comps.len()
            invariant
                i <= cwd_comps@.len(),
                str_views(cwd_comps@) == spec_posix_comps(cwd@),
                root_len as int == spec_posix_root(cwd@).len(),
                b@ == spec_posix_fold_lex(
                    spec_posix_root(cwd@),
                    str_views(cwd_comps@).take(i as int),
                    root_len as int,
                ),
            decreases cwd_comps@.len() - i,
        {
            proof {
                assert(str_views(cwd_comps@).take(i + 1).drop_last() =~= str_views(
                    cwd_comps@,
                ).take(i as int));
                assert(str_views(cwd_comps@).take(i + 1).last() == cwd_comps@[i as int]@);
            }
            if is_dotdot_str(cwd_comps[i]) {
                posix_pop(&mut b, root_len);
            } else {
                posix_push(&mut b, cwd_comps[i]);
            }
            i += 1;
        }
        proof {
            assert(str_views(cwd_comps@).take(cwd_comps@.len() as int) =~= str_views(cwd_comps@));
        }
    }
    let comps = posix_components(path);
    let mut i: usize = 0;
    proof {
        assert(str_views(comps@).take(0) =~= Seq::<Seq<char>>::empty());
    }
    while i < comps.len()
        invariant
            i <= comps@.len(),
            str_views(comps@) == spec_posix_comps(path@),
            root_len as int == spec_posix_root(
                if path@.len() > 0 && path@[0] == '/' {
                    path@
                } else {
                    cwd@
                },
            ).len(),
            b@ == spec_posix_fold_lex(
                spec_posix_base_lex(path@, cwd@),
                str_views(comps@).take(i as int),
                root_len as int,
            ),
        decreases comps@.len() - i,
    {
        proof {
            assert(str_views(comps@).take(i + 1).drop_last() =~= str_views(comps@).take(i as int));
            assert(str_views(comps@).take(i + 1).last() == comps@[i as int]@);
        }
        if is_dotdot_str(comps[i]) {
            posix_pop(&mut b, root_len);
        } else {
            posix_push(&mut b, comps[i]);
        }
        i += 1;
    }
    proof {
        assert(str_views(comps@).take(comps@.len() as int) =~= str_views(comps@));
    }
    if n > 0 && path.get_char(n - 1) == '/' {
        proof {
            reveal_strlit("");
        }
        posix_push(&mut b, "");
    }
    b
}

} // verus!
