//! The generic pure-path component model: a separator-parameterized path
//! type with component iteration, extension parsing, join and pop, and a
//! display adapter supporting separator substitution. The same logic serves
//! POSIX `/` and Windows `\` paths; the separator travels with each value.

pub mod iter;

use vstd::prelude::*;
use vstd::string::{StrSliceExecFns, StringExecFns};

use crate::model::{eq_sep_fn, find_last, join_with, lemma_find_last_is, lemma_join_split_on,
    lemma_split_on_congruence, pair_sep_fn, split_on};
use crate::strops::{after_last_of, join_strs, split_str_on};
use crate::util::string_push_char;

verus! {

/// The components of a path: none for the empty path, otherwise the pieces
/// between separators, empties included.
pub open spec fn spec_components(s: Seq<char>, sep: char) -> Seq<Seq<char>> {
    if s.len() == 0 {
        Seq::empty()
    } else {
        split_on(s, eq_sep_fn(sep))
    }
}

/// Joining the components of a path with its separator reproduces the path
/// exactly: the forward component sequence loses nothing, since empty
/// components are kept.
pub proof fn lemma_components_round_trip(s: Seq<char>, sep: char)
    ensures
        join_with(spec_components(s, sep), sep) == s,
{
    if s.len() == 0 {
        assert(join_with(Seq::<Seq<char>>::empty(), sep) =~= s);
    } else {
        lemma_join_split_on(s, sep);
    }
}

/// Appending one component: a separator goes in between unless the path is
/// empty or already ends with one.
pub open spec fn spec_push(s: Seq<char>, name: Seq<char>, sep: char) -> Seq<char> {
    if s.len() > 0 && s.last() != sep {
        s + seq![sep] + name
    } else {
        s + name
    }
}

/// The text before the last separator, or empty when none occurs.
pub open spec fn spec_parent(s: Seq<char>, sep: char) -> Seq<char> {
    if find_last(s, eq_sep_fn(sep)) < 0 {
        Seq::empty()
    } else {
        s.take(find_last(s, eq_sep_fn(sep)))
    }
}

/// The text after the last separator: the whole path when none occurs.
pub open spec fn spec_last_component(s: Seq<char>, sep: char) -> Seq<char> {
    s.skip(find_last(s, eq_sep_fn(sep)) + 1)
}

/// Where the extension chain of a file name is cut: the index of the last
/// dot, except that a dot in the leading position (the hidden-file
/// convention) starts no extension.
pub open spec fn spec_ext_cut(s: Seq<char>) -> int {
    find_last(s, eq_sep_fn('.'))
}

/// The file name without its final extension.
pub open spec fn spec_file_name(s: Seq<char>) -> Seq<char> {
    if spec_ext_cut(s) <= 0 {
        s
    } else {
        s.take(spec_ext_cut(s))
    }
}

/// The final extension, when one exists.
pub open spec fn spec_extension(s: Seq<char>) -> Option<Seq<char>> {
    if spec_ext_cut(s) <= 0 {
        None
    } else {
        Some(s.skip(spec_ext_cut(s) + 1))
    }
}

/// A single component of a path.
///
/// A path is a collection of components; a component never contains the
/// separator character.
#[derive(Debug, Clone, Copy)]
pub struct Component<'a> {
    name: &'a str,
    sep: char,
}

impl<'a> View for Component<'a> {
    type V = Seq<char>;

    closed spec fn view(&self) -> Seq<char> {
        self.name@
    }
}

impl<'a> Component<'a> {
    pub closed spec fn spec_sep(&self) -> char {
        self.sep
    }

    #[verifier::type_invariant]
    spec fn wf(self) -> bool {
        forall|i: int| 0 <= i < self.name@.len() ==> self.name@[i] != self.sep
    }

    /// Returns `None` if the `name` contains the separator.
    pub fn new(name: &'a str, sep: char) -> (r: Option<Self>)
        ensures
            (r is Some) == (forall|i: int| 0 <= i < name@.len() ==> name@[i] != sep),
            r matches Some(c) ==> c@ == name@ && c.spec_sep() == sep,
    {
        let p = after_last_of(name, sep, sep);
        if p == 0 {
            Some(Self { name, sep })
        } else {
            None
        }
    }

    /// Creates a component without scanning; the caller shows that the name
    /// holds no separator.
    pub fn new_unchecked(name: &'a str, sep: char) -> (r: Self)
        requires
            forall|i: int| 0 <= i < name@.len() ==> name@[i] != sep,
        ensures
            r@ == name@,
            r.spec_sep() == sep,
    {
        Self { name, sep }
    }

    /// Return the component as a `str`.
    pub fn as_str(self) -> (r: &'a str)
        ensures
            r@ == self@,
    {
        self.name
    }

    /// If the component is the empty string.
    ///
    /// Only the final component of a path may be empty.
    pub fn is_empty(self) -> (r: bool)
        ensures
            r == (self@.len() == 0),
    {
        self.name.unicode_len() == 0
    }

    /// Return the file name without the final extension (if any).
    pub fn file_name(self) -> (r: &'a str)
        ensures
            r@ == spec_file_name(self@),
    {
        let p = after_last_of(self.name, '.', '.');
        proof {
            lemma_find_last_is(self.name@, eq_sep_fn('.'), p - 1);
        }
        if p <= 1 {
            self.name
        } else {
            let r = self.name.substring_char(0, p - 1);
            proof {
                assert(r@ =~= spec_file_name(self@));
            }
            r
        }
    }

    /// The final extension.
    pub fn extension(self) -> (r: Option<&'a str>)
        ensures
            (r is Some) == (spec_extension(self@) is Some),
            r matches Some(e) ==> Some(e@) == spec_extension(self@),
    {
        let p = after_last_of(self.name, '.', '.');
        proof {
            lemma_find_last_is(self.name@, eq_sep_fn('.'), p - 1);
        }
        if p <= 1 {
            None
        } else {
            let n = self.name.unicode_len();
            let r = self.name.substring_char(p, n);
            proof {
                assert(r@ =~= self@.skip(spec_ext_cut(self@) + 1));
            }
            Some(r)
        }
    }

    /// Iterate over all extensions, innermost first.
    pub fn extensions(self) -> (r: iter::Extensions<'a>)
        ensures
            r.spec_file() == self@,
            r.spec_start() == self@.len(),
    {
        iter::Extensions::new(self.name)
    }
}

/// A collection of [`Component`]s.
#[derive(Debug, Clone, Copy)]
pub struct PurePath<'a> {
    path: &'a str,
    sep: char,
}

impl<'a> View for PurePath<'a> {
    type V = Seq<char>;

    closed spec fn view(&self) -> Seq<char> {
        self.path@
    }
}

impl<'a> PurePath<'a> {
    pub closed spec fn spec_sep(&self) -> char {
        self.sep
    }

    /// Create a new empty path.
    pub fn new(sep: char) -> (r: PurePath<'a>)
        ensures
            r@.len() == 0,
            r.spec_sep() == sep,
    {
        proof {
            reveal_strlit("");
        }
        Self { path: "", sep }
    }

    /// View a string as a path with the given separator.
    pub fn from_str(path: &'a str, sep: char) -> (r: PurePath<'a>)
        ensures
            r@ == path@,
            r.spec_sep() == sep,
    {
        Self { path, sep }
    }

    /// The path's text.
    pub fn as_str(&self) -> (r: &'a str)
        ensures
            r@ == self@,
    {
        self.path
    }

    /// Whether the path is empty.
    pub fn is_empty(&self) -> (r: bool)
        ensures
            r == (self@.len() == 0),
    {
        self.path.unicode_len() == 0
    }

    /// Whether the path is empty or ends with a separator: its file name is
    /// then the empty component.
    pub fn is_file_name_empty(&self) -> (r: bool)
        ensures
            r == (self@.len() == 0 || self@.last() == self.spec_sep()),
    {
        let n = self.path.unicode_len();
        n == 0 || self.path.get_char(n - 1) == self.sep
    }

    /// Get the file name including extension.
    ///
    /// This may return an empty component if the path ends with a separator.
    pub fn last(&self) -> (r: Option<Component<'a>>)
        ensures
            (r is Some) == (self@.len() > 0),
            r matches Some(c) ==> c@ == spec_last_component(self@, self.spec_sep())
                && c.spec_sep() == self.spec_sep(),
    {
        let n = self.path.unicode_len();
        if n == 0 {
            return None;
        }
        let p = after_last_of(self.path, self.sep, self.sep);
        proof {
            lemma_find_last_is(self.path@, eq_sep_fn(self.sep), p - 1);
        }
        let name = self.path.substring_char(p, n);
        proof {
            assert(name@ =~= spec_last_component(self@, self.spec_sep()));
        }
        Some(Component::new_unchecked(name, self.sep))
    }

    /// Try to get the parent path.
    pub fn parent(&self) -> (r: Option<PurePath<'a>>)
        ensures
            (r is Some) == (self@.len() > 0),
            r matches Some(p) ==> p@ == spec_parent(self@, self.spec_sep()) && p.spec_sep()
                == self.spec_sep(),
    {
        let n = self.path.unicode_len();
        if n == 0 {
            return None;
        }
        let p = after_last_of(self.path, self.sep, self.sep);
        proof {
            lemma_find_last_is(self.path@, eq_sep_fn(self.sep), p - 1);
        }
        if p == 0 {
            Some(PurePath::new(self.sep))
        } else {
            let parent = self.path.substring_char(0, p - 1);
            proof {
                assert(parent@ =~= spec_parent(self@, self.spec_sep()));
            }
            Some(PurePath::from_str(parent, self.sep))
        }
    }

    /// Iterate over the components of a path.
    pub fn components(&self) -> (r: iter::Components<'a>)
        ensures
            r.spec_path() == self@,
            r.spec_sep() == self.spec_sep(),
            r.spec_pos() == 0,
            r.spec_done() == (self@.len() == 0),
    {
        iter::Components::new(self.path, self.sep)
    }

    /// Iterate over the path and its parent paths.
    ///
    /// This is equivalent to calling `parent` in a loop.
    pub fn ancestors(&self) -> (r: iter::Ancestors<'a>)
        ensures
            r.spec_path() == self@,
            r.spec_sep() == self.spec_sep(),
            r.spec_start() == self@.len(),
            r.spec_done() == (self@.len() == 0),
    {
        iter::Ancestors::new(self.path, self.sep)
    }

    /// Returns a display adapter.
    pub fn display(&self) -> (r: DisplayPath<'a>)
        ensures
            r.spec_path() == self@,
            r.spec_sep() == self.spec_sep(),
            r.spec_out_sep() == self.spec_sep(),
    {
        DisplayPath { path: self.path, sep: self.sep, out_sep: self.sep }
    }
}

/// An owned [`PurePath`].
#[derive(Debug)]
pub struct PurePathBuf {
    path: String,
    sep: char,
}

impl View for PurePathBuf {
    type V = Seq<char>;

    closed spec fn view(&self) -> Seq<char> {
        self.path@
    }
}

impl PurePathBuf {
    pub closed spec fn spec_sep(&self) -> char {
        self.sep
    }

    /// Create an empty buffer.
    pub fn new(sep: char) -> (r: Self)
        ensures
            r@.len() == 0,
            r.spec_sep() == sep,
    {
        Self { path: String::new(), sep }
    }

    /// The buffer viewed as a path.
    pub fn as_path(&self) -> (r: PurePath<'_>)
        ensures
            r@ == self@,
            r.spec_sep() == self.spec_sep(),
    {
        PurePath::from_str(self.path.as_str(), self.sep)
    }

    /// Appends a single component to the path, with a separator in between
    /// unless the path is empty or already ends with one.
    pub fn push(&mut self, component: Component<'_>)
        requires
            component.spec_sep() == old(self).spec_sep(),
        ensures
            final(self)@ == spec_push(old(self)@, component@, old(self).spec_sep()),
            final(self).spec_sep() == old(self).spec_sep(),
    {
        let n = self.path.as_str().unicode_len();
        if !(n == 0 || self.path.as_str().get_char(n - 1) == self.sep) {
            string_push_char(&mut self.path, self.sep);
        }
        self.path.append(component.as_str());
    }

    /// Remove the last component from the path.
    ///
    /// If the path is already empty then this will return false.
    /// If the path ends with the separator then this will remove only the
    /// separator.
    pub fn pop(&mut self) -> (r: bool)
        ensures
            r == (old(self)@.len() > 0),
            old(self)@.len() == 0 ==> final(self)@ == old(self)@,
            old(self)@.len() > 0 ==> final(self)@ == spec_parent(old(self)@, old(self).spec_sep()),
            final(self).spec_sep() == old(self).spec_sep(),
    {
        let n = self.path.as_str().unicode_len();
        if n == 0 {
            return false;
        }
        let p = after_last_of(self.path.as_str(), self.sep, self.sep);
        proof {
            lemma_find_last_is(self.path@, eq_sep_fn(self.sep), p - 1);
        }
        if p == 0 {
            self.path = String::new();
        } else {
            let parent = String::from_str(self.path.as_str().substring_char(0, p - 1));
            proof {
                assert(parent@ =~= spec_parent(self@, self.spec_sep()));
            }
            self.path = parent;
        }
        true
    }

    /// Empty the buffer.
    pub fn clear(&mut self)
        ensures
            final(self)@.len() == 0,
            final(self).spec_sep() == old(self).spec_sep(),
    {
        self.path = String::new();
    }
}

/// A display adapter for a pure path, able to substitute the separator.
#[derive(Debug, Clone, Copy)]
pub struct DisplayPath<'a> {
    path: &'a str,
    sep: char,
    out_sep: char,
}

impl<'a> DisplayPath<'a> {
    pub closed spec fn spec_path(&self) -> Seq<char> {
        self.path@
    }

    pub closed spec fn spec_sep(&self) -> char {
        self.sep
    }

    pub closed spec fn spec_out_sep(&self) -> char {
        self.out_sep
    }

    /// Display the path with the given `separator`.
    ///
    /// This fails only if the requested separator already occurs literally
    /// inside the path text, which would make the output ambiguous.
    /// Requesting the path's own separator succeeds whenever the text holds
    /// no separator at all, and then displays the text unchanged.
    pub fn separator(self, separator: char) -> (r: Result<Self, Self>)
        ensures
            (r is Ok) == (forall|i: int|
                0 <= i < self.spec_path().len() ==> self.spec_path()[i] != separator),
            r matches Ok(d) ==> d.spec_path() == self.spec_path() && d.spec_sep()
                == self.spec_sep() && d.spec_out_sep() == separator,
            r matches Err(d) ==> d == self,
    {
        let p = after_last_of(self.path, separator, separator);
        proof {
            if p > 0 {
                assert(self.spec_path()[p - 1] == separator);
            }
        }
        if p == 0 {
            Ok(Self { path: self.path, sep: self.sep, out_sep: separator })
        } else {
            Err(self)
        }
    }

    /// The displayed text: the path itself, or its components joined by the
    /// substituted separator.
    pub fn to_string(&self) -> (r: String)
        ensures
            self.spec_out_sep() == self.spec_sep() ==> r@ == self.spec_path(),
            self.spec_out_sep() != self.spec_sep() ==> r@ == join_with(
                spec_components(self.spec_path(), self.spec_sep()),
                self.spec_out_sep(),
            ),
    {
        if self.out_sep == self.sep {
            return String::from_str(self.path);
        }
        if self.path.unicode_len() == 0 {
            return String::new();
        }
        let comps = split_str_on(self.path, self.sep, self.sep);
        proof {
            assert forall|c: char| #[trigger]
                pair_sep_fn(self.sep, self.sep)(c) == eq_sep_fn(self.sep)(c) by {}
            lemma_split_on_congruence(self.path@, pair_sep_fn(self.sep, self.sep), eq_sep_fn(
                self.sep,
            ));
        }
        join_strs(&comps, self.out_sep)
    }
}

} // verus!
