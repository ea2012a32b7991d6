//! Iterators for use with pure paths: extensions of a file name, forward
//! component iteration, and the reverse ancestor walk. Each iterator is a
//! struct with an inherent `next` method; a fresh iterator restarts the
//! sequence.

use vstd::prelude::*;
use vstd::string::StrSliceExecFns;

use crate::model::{eq_sep_fn, find_first, find_last, lemma_find_first_is, lemma_find_last_is};
use crate::strops::after_last_of;

verus! {

/// The index of the first occurrence of `sep` at or after `from`, or the
/// length when none follows.
fn find_char_from(s: &str, from: usize, sep: char) -> (r: usize)
    requires
        from <= s@.len(),
    ensures
        from <= r <= s@.len(),
        forall|j: int| from <= j < r ==> s@[j] != sep,
        r < s@.len() ==> s@[r as int] == sep,
{
    let n = s.unicode_len();
    let mut i = from;
    while i < n
        invariant
            from <= i <= n,
            n == s@.len(),
            forall|j: int| from <= j < i ==> s@[j] != sep,
        decreases n - i,
    {
        if s.get_char(i) == sep {
            return i;
        }
        i += 1;
    }
    n
}

/// One trailing separator removed, when present.
pub open spec fn strip_sep_suffix(t: Seq<char>, sep: char) -> Seq<char> {
    if t.len() > 0 && t.last() == sep {
        t.drop_last()
    } else {
        t
    }
}

/// Represents a single extension. E.g. for `a.tar.gz` an extension covers
/// `gz` or `tar.gz`, depending on how far the iteration has come.
#[derive(Debug, Clone, Copy)]
pub struct Extension<'a> {
    file_name: &'a str,
    start: usize,
    end: usize,
}

impl<'a> View for Extension<'a> {
    type V = Seq<char>;

    closed spec fn view(&self) -> Seq<char> {
        self.file_name@
    }
}

impl<'a> Extension<'a> {
    pub closed spec fn spec_start(&self) -> int {
        self.start as int
    }

    pub closed spec fn spec_end(&self) -> int {
        self.end as int
    }

    #[verifier::type_invariant]
    spec fn wf(self) -> bool {
        self.start <= self.end <= self.file_name@.len()
    }

    pub(crate) fn new(file_name: &'a str) -> (r: Self)
        ensures
            r@ == file_name@,
            r.spec_start() == file_name@.len(),
            r.spec_end() == file_name@.len(),
    {
        let len = file_name.unicode_len();
        Self { file_name, start: len, end: len }
    }

    /// The current extension, without its leading dot.
    pub fn extension(self) -> (r: &'a str)
        requires
            self.spec_start() < self.spec_end(),
        ensures
            r@ == self@.subrange(self.spec_start() + 1, self.spec_end()),
    {
        proof {
            use_type_invariant(&self);
        }
        self.file_name.substring_char(self.start + 1, self.end)
    }

    /// Split the file name into `(name, extension)` at this point.
    pub fn split_once(self) -> (r: (&'a str, &'a str))
        ensures
            r.0@ == self@.take(self.spec_start()),
            r.1@ == self@.skip(self.spec_start()),
    {
        proof {
            use_type_invariant(&self);
        }
        let n = self.file_name.unicode_len();
        let head = self.file_name.substring_char(0, self.start);
        let tail = self.file_name.substring_char(self.start, n);
        proof {
            assert(head@ =~= self@.take(self.spec_start()));
            assert(tail@ =~= self@.skip(self.spec_start()));
        }
        (head, tail)
    }

    /// The entire extension from this point. E.g. `tar.gz`.
    pub fn full_extension(self) -> (r: &'a str)
        ensures
            r@ == self@.skip(self.spec_start()),
    {
        self.split_once().1
    }

    /// Get the filename without this extension.
    pub fn stem(self) -> (r: &'a str)
        ensures
            r@ == self@.take(self.spec_start()),
    {
        self.split_once().0
    }
}

/// Iterator over one or more file extensions, innermost first.
#[derive(Debug)]
pub struct Extensions<'a> {
    current: Extension<'a>,
}

impl<'a> Extensions<'a> {
    pub closed spec fn spec_file(&self) -> Seq<char> {
        self.current.file_name@
    }

    pub closed spec fn spec_start(&self) -> int {
        self.current.spec_start()
    }

    pub fn new(name: &'a str) -> (r: Self)
        ensures
            r.spec_file() == name@,
            r.spec_start() == name@.len(),
    {
        Self { current: Extension::new(name) }
    }

    /// Steps outward: cuts the stem at its last dot, unless the dot leads
    /// the name (the hidden-file convention) or none remains.
    pub fn next(&mut self) -> (r: Option<Extension<'a>>)
        ensures
            final(self).spec_file() == old(self).spec_file(),
            ({
                let cut = find_last(
                    old(self).spec_file().take(old(self).spec_start()),
                    eq_sep_fn('.'),
                );
                &&& (r is Some) == (cut > 0)
                &&& cut > 0 ==> {
                    &&& final(self).spec_start() == cut
                    &&& r matches Some(e) ==> e@ == old(self).spec_file() && e.spec_start() == cut
                        && e.spec_end() == old(self).spec_start()
                }
                &&& cut <= 0 ==> final(self).spec_start() == old(self).spec_start()
            }),
    {
        proof {
            use_type_invariant(&self.current);
        }
        let name = self.current.file_name.substring_char(0, self.current.start);
        proof {
            assert(name@ =~= self.current.file_name@.take(self.current.start as int));
        }
        let p = after_last_of(name, '.', '.');
        proof {
            lemma_find_last_is(name@, eq_sep_fn('.'), p - 1);
        }
        if p <= 1 {
            None
        } else {
            self.current = Extension {
                file_name: self.current.file_name,
                start: p - 1,
                end: self.current.start,
            };
            Some(self.current)
        }
    }
}

/// Represents a component that's currently being iterated, together with
/// where it stands in the path.
#[derive(Debug, Clone, Copy)]
pub struct Component<'a> {
    path: &'a str,
    sep: char,
    start: usize,
    component: super::Component<'a>,
}

impl<'a> Component<'a> {
    pub closed spec fn spec_path(&self) -> Seq<char> {
        self.path@
    }

    pub closed spec fn spec_sep(&self) -> char {
        self.sep
    }

    pub closed spec fn spec_start(&self) -> int {
        self.start as int
    }

    pub closed spec fn spec_component(&self) -> Seq<char> {
        self.component@
    }

    #[verifier::type_invariant]
    spec fn wf(self) -> bool {
        &&& self.start <= self.path@.len()
        &&& self.component.spec_sep() == self.sep
    }

    /// Get the current component.
    pub fn component(self) -> (r: super::Component<'a>)
        ensures
            r@ == self.spec_component(),
            r.spec_sep() == self.spec_sep(),
    {
        proof {
            use_type_invariant(&self);
        }
        self.component
    }

    /// Get this component's parent path.
    pub fn parent(self) -> (r: super::PurePath<'a>)
        ensures
            r@ == self.spec_path().take(self.spec_start()),
            r.spec_sep() == self.spec_sep(),
    {
        self.split_once().0
    }

    /// Get the rest of the path, including this component, without a
    /// trailing separator.
    pub fn path(&self) -> (r: super::PurePath<'a>)
        ensures
            r@ == strip_sep_suffix(self.spec_path().skip(self.spec_start()), self.spec_sep()),
            r.spec_sep() == self.spec_sep(),
    {
        self.split_once().1
    }

    /// Returns the parent path and then the rest of the path including the
    /// current component.
    pub fn split_once(self) -> (r: (super::PurePath<'a>, super::PurePath<'a>))
        ensures
            r.0@ == self.spec_path().take(self.spec_start()),
            r.1@ == strip_sep_suffix(self.spec_path().skip(self.spec_start()), self.spec_sep()),
            r.0.spec_sep() == self.spec_sep(),
            r.1.spec_sep() == self.spec_sep(),
    {
        proof {
            use_type_invariant(&self);
        }
        let n = self.path.unicode_len();
        let head = self.path.substring_char(0, self.start);
        let tail = self.path.substring_char(self.start, n);
        proof {
            assert(head@ =~= self.spec_path().take(self.spec_start()));
            assert(tail@ =~= self.spec_path().skip(self.spec_start()));
        }
        let tn = tail.unicode_len();
        let tail = if tn > 0 && tail.get_char(tn - 1) == self.sep {
            let t = tail.substring_char(0, tn - 1);
            proof {
                assert(t@ =~= tail@.drop_last());
            }
            t
        } else {
            tail
        };
        (super::PurePath::from_str(head, self.sep), super::PurePath::from_str(tail, self.sep))
    }
}

/// Iterator over the components of a path, front to back.
#[derive(Debug, Clone, Copy)]
pub struct Components<'a> {
    path: &'a str,
    sep: char,
    pos: usize,
    done: bool,
}

impl<'a> Components<'a> {
    pub closed spec fn spec_path(&self) -> Seq<char> {
        self.path@
    }

    pub closed spec fn spec_sep(&self) -> char {
        self.sep
    }

    pub closed spec fn spec_pos(&self) -> int {
        self.pos as int
    }

    pub closed spec fn spec_done(&self) -> bool {
        self.done
    }

    #[verifier::type_invariant]
    spec fn wf(self) -> bool {
        self.pos <= self.path@.len()
    }

    pub(crate) fn new(path: &'a str, sep: char) -> (r: Self)
        ensures
            r.spec_path() == path@,
            r.spec_sep() == sep,
            r.spec_pos() == 0,
            r.spec_done() == (path@.len() == 0),
    {
        let empty = path.unicode_len() == 0;
        Self { path, sep, pos: 0, done: empty }
    }

    /// The next component: the text up to the next separator, or the rest.
    pub fn next(&mut self) -> (r: Option<Component<'a>>)
        ensures
            final(self).spec_path() == old(self).spec_path(),
            final(self).spec_sep() == old(self).spec_sep(),
            old(self).spec_done() ==> r is None && *final(self) == *old(self),
            !old(self).spec_done() ==> {
                let s = old(self).spec_path();
                let pos = old(self).spec_pos();
                let sep = old(self).spec_sep();
                let k = pos + find_first(s.skip(pos), eq_sep_fn(sep));
                let f = *final(self);
                &&& r is Some
                &&& (r matches Some(c) ==> c.spec_component() == s.subrange(pos, k)
                    && c.spec_start() == pos && c.spec_path() == s && c.spec_sep() == sep)
                &&& k < s.len() ==> f.spec_pos() == k + 1 && !f.spec_done()
                &&& k == s.len() ==> f.spec_done()
            },
    {
        proof {
            use_type_invariant(&*self);
        }
        if self.done {
            return None;
        }
        let n = self.path.unicode_len();
        let k = find_char_from(self.path, self.pos, self.sep);
        proof {
            let rem = self.path@.skip(self.pos as int);
            assert forall|j: int| 0 <= j < k - self.pos implies !eq_sep_fn(self.sep)(rem[j]) by {
                assert(rem[j] == self.path@[self.pos + j]);
            }
            if k < n {
                assert(rem[k - self.pos] == self.path@[k as int]);
            }
            lemma_find_first_is(rem, eq_sep_fn(self.sep), k - self.pos);
        }
        let name = self.path.substring_char(self.pos, k);
        proof {
            assert(name@ =~= self.path@.subrange(self.pos as int, k as int));
        }
        let item = Component {
            path: self.path,
            sep: self.sep,
            start: self.pos,
            component: super::Component::new_unchecked(name, self.sep),
        };
        if k < n {
            self.pos = k + 1;
        } else {
            self.done = true;
        }
        Some(item)
    }
}

/// Iterator over the components of a path, back to front, exposing each
/// component's parent as it goes.
#[derive(Debug, Clone, Copy)]
pub struct Ancestors<'a> {
    path: &'a str,
    sep: char,
    start: usize,
    done: bool,
}

impl<'a> Ancestors<'a> {
    pub closed spec fn spec_path(&self) -> Seq<char> {
        self.path@
    }

    pub closed spec fn spec_sep(&self) -> char {
        self.sep
    }

    pub closed spec fn spec_start(&self) -> int {
        self.start as int
    }

    pub closed spec fn spec_done(&self) -> bool {
        self.done
    }

    #[verifier::type_invariant]
    spec fn wf(self) -> bool {
        self.start <= self.path@.len()
    }

    pub(crate) fn new(path: &'a str, sep: char) -> (r: Self)
        ensures
            r.spec_path() == path@,
            r.spec_sep() == sep,
            r.spec_start() == path@.len(),
            r.spec_done() == (path@.len() == 0),
    {
        let len = path.unicode_len();
        Self { path, sep, start: len, done: len == 0 }
    }

    /// The next component from the back: the text after the last separator
    /// before the current position, with that separator's index recorded as
    /// the component's split point.
    pub fn next(&mut self) -> (r: Option<Component<'a>>)
        ensures
            final(self).spec_path() == old(self).spec_path(),
            final(self).spec_sep() == old(self).spec_sep(),
            old(self).spec_done() ==> r is None && *final(self) == *old(self),
            !old(self).spec_done() ==> {
                let s = old(self).spec_path();
                let end = old(self).spec_start();
                let sep = old(self).spec_sep();
                let k = find_last(s.take(end), eq_sep_fn(sep));
                let f = *final(self);
                &&& r is Some
                &&& k >= 0 ==> (r matches Some(c) ==> c.spec_component() == s.subrange(k + 1, end)
                    && c.spec_start() == k) && f.spec_start() == k && !f.spec_done()
                &&& k < 0 ==> (r matches Some(c) ==> c.spec_component() == s.subrange(0, end)
                    && c.spec_start() == 0) && f.spec_done()
                &&& (r matches Some(c) ==> c.spec_path() == s && c.spec_sep() == sep)
            },
    {
        proof {
            use_type_invariant(&*self);
        }
        if self.done {
            return None;
        }
        let end = self.start;
        let head = self.path.substring_char(0, end);
        proof {
            assert(head@ =~= self.path@.take(end as int));
        }
        let p = after_last_of(head, self.sep, self.sep);
        proof {
            lemma_find_last_is(head@, eq_sep_fn(self.sep), p - 1);
        }
        let name = self.path.substring_char(p, end);
        proof {
            assert(name@ =~= self.path@.take(end as int).skip(p as int));
            assert forall|i: int| 0 <= i < name@.len() implies name@[i] != self.sep by {
                assert(name@[i] == head@[p + i]);
            }
            if p > 0 {
                assert(name@ =~= self.path@.subrange(p - 1 + 1, end as int));
            } else {
                assert(name@ =~= self.path@.subrange(0, end as int));
            }
        }
        let item = Component {
            path: self.path,
            sep: self.sep,
            start: if p > 0 {
                p - 1
            } else {
                0
            },
            component: super::Component::new_unchecked(name, self.sep),
        };
        if p > 0 {
            self.start = p - 1;
        } else {
            self.done = true;
        }
        Some(item)
    }
}

} // verus!
