//! The Windows path builder: an owned prefix plus a pure-path buffer,
//! parsed from a whole path and grown by push operations that honor `.` and
//! `..` semantics as they go.

use vstd::prelude::*;
use vstd::string::{StrSliceExecFns, StringExecFns};

use crate::kind::{spec_is_absolute, spec_kind, spec_prefix_chars, ParsedUtf8Path, WinPathKind};
use crate::model::{dot, dotdot, find_last, lemma_find_last_is,
    lemma_split_on_components_free, lemma_split_on_congruence, pair_sep_fn, split_on,
    strip_one_dot, trimmed_len, win_sep_fn};
use crate::pure::{spec_parent, spec_push, Component};
use crate::raw::{StrPath, StrPathBuffer};
use crate::strops::{is_dot_str, is_dotdot_str, split_str_on, str_views, strip_dot_str,
    trimmed_len_str};
use crate::util::string_push_char;

verus! {

/// The different kinds of prefixes.
#[derive(Clone, Copy, Debug)]
pub enum Win32Prefix {
    /// A traditional drive path such as `C:\`, `R:\`, etc.
    Drive(u16),
    /// A path to a network directory such as `\\server\share\`.
    Unc,
    /// A device path such as `\\.\COM1`.
    Device,
    /// A path that's relative to the current directory.
    CurrentDir,
}

/// Popping the last component of the buffer; an empty buffer is unchanged.
pub open spec fn spec_wp_pop(buf: Seq<char>) -> Seq<char> {
    if buf.len() == 0 {
        buf
    } else {
        spec_parent(buf, '\\')
    }
}

/// Popping the trailing empty filename slot: only when the buffer is empty
/// or ends with the separator.
pub open spec fn spec_wp_pop_empty(buf: Seq<char>) -> Seq<char> {
    if buf.len() == 0 || buf.last() == '\\' {
        spec_wp_pop(buf)
    } else {
        buf
    }
}

/// What pushing one component does: `.` removes a trailing empty filename
/// slot, `..` does the same and then pops one more component, anything else
/// loses its trailing dots and spaces and is appended.
pub open spec fn spec_wp_push(buf: Seq<char>, c: Seq<char>) -> Seq<char> {
    if c == dot() {
        spec_wp_pop_empty(buf)
    } else if c == dotdot() {
        spec_wp_pop(spec_wp_pop_empty(buf))
    } else {
        spec_push(buf, spec_clean_file_name(c), '\\')
    }
}

/// A single trailing dot stripped, except from the `.` component itself.
pub open spec fn spec_clean_dir_name(c: Seq<char>) -> Seq<char> {
    if c == dot() {
        c
    } else {
        strip_one_dot(c)
    }
}

/// Trailing dots and spaces stripped, except from `.` and `..` themselves.
pub open spec fn spec_clean_file_name(c: Seq<char>) -> Seq<char> {
    if c == dot() || c == dotdot() {
        c
    } else {
        c.take(trimmed_len(c) as int)
    }
}

/// The buffer text after pushing each component of `cs` in order, each with
/// its directory-name cleaning applied before the push's own file-name
/// trimming.
pub open spec fn spec_wp_fold(cs: Seq<Seq<char>>) -> Seq<char>
    decreases cs.len(),
{
    if cs.len() == 0 {
        Seq::empty()
    } else {
        spec_wp_push(spec_wp_fold(cs.drop_last()), spec_clean_dir_name(cs.last()))
    }
}

/// The prefix with `/` separators replaced by `\`.
pub open spec fn spec_map_seps(p: Seq<char>) -> Seq<char> {
    Seq::new(
        p.len(),
        |i: int|
            if p[i] == '/' {
                '\\'
            } else {
                p[i]
            },
    )
}

/// The parsed prefix, separator-normalized, with absolute prefixes made to
/// end in `\`.
pub open spec fn spec_wp_prefix(s: Seq<char>) -> Seq<char> {
    let p = spec_map_seps(s.take(spec_prefix_chars(s)));
    if spec_is_absolute(spec_kind(s)) && !(p.len() > 0 && p.last() == '\\') {
        p + seq!['\\']
    } else {
        p
    }
}

/// The subpath with its final filename's trailing dots and spaces removed,
/// unless that filename is exactly `.` or `..`.
pub open spec fn spec_wp_subpath(sub: Seq<char>) -> Seq<char> {
    let fname = sub.skip(find_last(sub, win_sep_fn()) + 1);
    if fname == dot() || fname == dotdot() {
        sub
    } else {
        sub.take(trimmed_len(sub) as int)
    }
}

/// A stateful Windows path: an owned prefix string, already
/// separator-normalized, plus a growable buffer of `\`-joined components.
pub struct WindowsPath {
    prefix: String,
    path: StrPathBuffer,
}

impl WindowsPath {
    pub closed spec fn spec_prefix(&self) -> Seq<char> {
        self.prefix@
    }

    pub closed spec fn spec_subpath(&self) -> Seq<char> {
        self.path@
    }

    pub fn new() -> (r: Self)
        ensures
            r.spec_prefix().len() == 0,
            r.spec_subpath().len() == 0,
    {
        Self { prefix: String::new(), path: StrPathBuffer::new() }
    }

    /// The prefix text.
    pub fn prefix_str(&self) -> (r: &str)
        ensures
            r@ == self.spec_prefix(),
    {
        self.prefix.as_str()
    }

    /// The subpath text.
    pub fn subpath_str(&self) -> (r: &str)
        ensures
            r@ == self.spec_subpath(),
    {
        self.path.as_str()
    }

    /// Parse a Windows path from a str: classify and split it, trim the
    /// final filename, normalize the prefix, and push each subpath
    /// component through the stateful `push`.
    pub fn parse(path: &str) -> (r: Self)
        ensures
            r.spec_prefix() == spec_wp_prefix(path@),
            r.spec_subpath() == spec_wp_fold(
                split_on(spec_wp_subpath(path@.skip(spec_prefix_chars(path@))), win_sep_fn()),
            ),
    {
        let parsed = ParsedUtf8Path::from_utf8(path);
        let kind = parsed.kind();
        let (prefix, sub) = parsed.parts();
        // Trim the end of the subpath, unless its filename is `.` or `..`.
        let sub_len = sub.unicode_len();
        let p_last = crate::strops::after_last_of(sub, '\\', '/');
        proof {
            assert forall|j: int| p_last <= j < sub@.len() implies !win_sep_fn()(sub@[j]) by {}
            if p_last > 0 {
                assert(win_sep_fn()(sub@[p_last - 1]));
            }
            lemma_find_last_is(sub@, win_sep_fn(), p_last - 1);
        }
        let fname = sub.substring_char(p_last, sub_len);
        proof {
            assert(fname@ =~= sub@.skip(find_last(sub@, win_sep_fn()) + 1));
        }
        let sub = if is_dot_str(fname) || is_dotdot_str(fname) {
            sub
        } else {
            let t = sub.substring_char(0, trimmed_len_str(sub));
            proof {
                assert(t@ =~= spec_wp_subpath(sub@));
            }
            t
        };
        // Normalize the prefix's separators and its absolute form.
        let mut pre = String::new();
        let pre_len = prefix.unicode_len();
        let mut i: usize = 0;
        while i < pre_len
            invariant
                i <= pre_len,
                pre_len == prefix@.len(),
                pre@ =~= spec_map_seps(prefix@).take(i as int),
            decreases pre_len - i,
        {
            let c = prefix.get_char(i);
            if c == '/' {
                string_push_char(&mut pre, '\\');
            } else {
                string_push_char(&mut pre, c);
            }
            proof {
                assert(pre@ =~= spec_map_seps(prefix@).take(i + 1));
            }
            i += 1;
        }
        proof {
            assert(spec_map_seps(prefix@).take(pre_len as int) =~= spec_map_seps(prefix@));
        }
        let n2 = pre.as_str().unicode_len();
        if kind.is_absolute() && !(n2 > 0 && pre.as_str().get_char(n2 - 1) == '\\') {
            string_push_char(&mut pre, '\\');
        }
        let mut this = Self { prefix: pre, path: StrPathBuffer::new() };
        // Push the subpath components one by one.
        let comps = split_str_on(sub, '\\', '/');
        proof {
            assert forall|c: char| #[trigger] pair_sep_fn('\\', '/')(c) == win_sep_fn()(c) by {}
            lemma_split_on_congruence(sub@, pair_sep_fn('\\', '/'), win_sep_fn());
            lemma_split_on_components_free(sub@, win_sep_fn());
            assert(str_views(comps@).take(0) =~= Seq::<Seq<char>>::empty());
        }
        let m = comps.len();
        let mut j: usize = 0;
        while j < m
            invariant
                j <= m,
                m == comps@.len(),
                forall|k: int, l: int|
                    0 <= k < str_views(comps@).len() && 0 <= l < str_views(comps@)[k].len()
                        ==> !win_sep_fn()(#[trigger] str_views(comps@)[k][l]),
                this.spec_subpath() == spec_wp_fold(str_views(comps@).take(j as int)),
                this.spec_prefix() == spec_wp_prefix(path@),
            decreases m - j,
        {
            proof {
                assert(str_views(comps@)[j as int] == comps@[j as int]@);
            }
            let component = WindowsComponent::new_unchecked(comps[j]).clean_dir_name();
            this.push(component);
            proof {
                assert(str_views(comps@).take(j + 1).drop_last() =~= str_views(comps@).take(
                    j as int,
                ));
                assert(str_views(comps@).take(j + 1).last() == str_views(comps@)[j as int]);
            }
            j += 1;
        }
        proof {
            assert(str_views(comps@).take(m as int) =~= str_views(comps@));
        }
        this
    }

    /// Push one component: `.` removes a trailing empty filename slot, `..`
    /// does the same and then pops a component, anything else loses its
    /// trailing dots and spaces and is appended. Reports whether that
    /// trimming removed anything.
    pub fn push(&mut self, component: WindowsComponent<'_>) -> (r: bool)
        ensures
            final(self).spec_subpath() == spec_wp_push(old(self).spec_subpath(), component@),
            final(self).spec_prefix() == old(self).spec_prefix(),
            r == (spec_clean_file_name(component@) != component@),
    {
        let name = component.as_str();
        if is_dot_str(name) {
            self.pop_empty();
            false
        } else if is_dotdot_str(name) {
            self.pop_empty();
            self.pop();
            false
        } else {
            let trimmed = component.clean_file_name();
            let shortened = trimmed.as_str().unicode_len() != name.unicode_len();
            proof {
                crate::model::lemma_trimmed_len_bounds(component@);
                if !shortened {
                    assert(trimmed@ =~= component@);
                }
            }
            self.path.push_component(&StrPath::from_str(trimmed.as_str()));
            shortened
        }
    }

    /// Remove a trailing empty filename slot, equivalent to stripping a
    /// trailing separator; reports whether anything was removed.
    pub fn pop_empty(&mut self) -> (r: bool)
        ensures
            final(self).spec_subpath() == spec_wp_pop_empty(old(self).spec_subpath()),
            final(self).spec_prefix() == old(self).spec_prefix(),
            r == (old(self).spec_subpath().len() > 0 && old(self).spec_subpath().last() == '\\'),
    {
        let n = self.path.as_str().unicode_len();
        if n == 0 || self.path.as_str().get_char(n - 1) == '\\' {
            self.pop()
        } else {
            false
        }
    }

    /// Remove the last component; reports whether anything was removed.
    pub fn pop(&mut self) -> (r: bool)
        ensures
            final(self).spec_subpath() == spec_wp_pop(old(self).spec_subpath()),
            final(self).spec_prefix() == old(self).spec_prefix(),
            r == (old(self).spec_subpath().len() > 0),
    {
        let n = self.path.as_str().unicode_len();
        if n == 0 {
            return false;
        }
        if !self.path.pop_verbatim_component() {
            self.path = StrPathBuffer::new();
        }
        true
    }

    /// The kind denoted by the stored prefix.
    pub fn kind(&self) -> (r: WinPathKind)
        ensures
            r == spec_kind(self.spec_prefix()),
    {
        WinPathKind::from_str(self.prefix.as_str())
    }
}

impl Default for WindowsPath {
    fn default() -> (r: Self)
        ensures
            r.spec_prefix().len() == 0,
            r.spec_subpath().len() == 0,
    {
        Self::new()
    }
}

/// A single component of a Windows path, holding no `\` separator.
#[derive(Copy, Clone, Debug)]
pub struct WindowsComponent<'a> {
    component: Component<'a>,
}

impl<'a> View for WindowsComponent<'a> {
    type V = Seq<char>;

    closed spec fn view(&self) -> Seq<char> {
        self.component@
    }
}

impl<'a> WindowsComponent<'a> {
    #[verifier::type_invariant]
    spec fn wf(self) -> bool {
        &&& self.component.spec_sep() == '\\'
        &&& forall|i: int| 0 <= i < self.component@.len() ==> self.component@[i] != '\\'
    }

    pub fn new_unchecked(name: &'a str) -> (r: Self)
        requires
            forall|i: int| 0 <= i < name@.len() ==> name@[i] != '\\',
        ensures
            r@ == name@,
    {
        Self { component: Component::new_unchecked(name, '\\') }
    }

    pub fn as_str(&self) -> (r: &'a str)
        ensures
            r@ == self@,
    {
        self.component.as_str()
    }

    /// A directory name keeps `.` as it is and otherwise loses a single
    /// trailing dot.
    pub fn clean_dir_name(self) -> (r: Self)
        ensures
            r@ == spec_clean_dir_name(self@),
    {
        proof {
            use_type_invariant(&self);
        }
        let s = self.component.as_str();
        if !is_dot_str(s) {
            let stripped = strip_dot_str(s);
            proof {
                assert forall|i: int| 0 <= i < stripped@.len() implies stripped@[i] != '\\' by {
                    assert(stripped@[i] == s@[i]);
                }
            }
            Self { component: Component::new_unchecked(stripped, '\\') }
        } else {
            self
        }
    }

    /// A file name keeps `.` and `..` as they are and otherwise loses all
    /// trailing dots and spaces.
    pub fn clean_file_name(self) -> (r: Self)
        ensures
            r@ == spec_clean_file_name(self@),
    {
        proof {
            use_type_invariant(&self);
        }
        let s = self.component.as_str();
        if !is_dot_str(s) && !is_dotdot_str(s) {
            let trimmed = s.substring_char(0, trimmed_len_str(s));
            proof {
                assert(trimmed@ =~= s@.take(trimmed_len(s@) as int));
                assert forall|i: int| 0 <= i < trimmed@.len() implies trimmed@[i] != '\\' by {
                    assert(trimmed@[i] == s@[i]);
                }
            }
            Self { component: Component::new_unchecked(trimmed, '\\') }
        } else {
            self
        }
    }
}

} // verus!
