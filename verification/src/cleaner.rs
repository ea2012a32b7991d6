//! The lexical path cleaner: resolves `.` and `..` components, trims
//! trailing filename junk the way the Windows filesystem layer does, repairs
//! malformed UNC prefixes and normalizes separators, entirely by text
//! inspection. Verbatim paths are returned unchanged.

use vstd::prelude::*;
use vstd::string::{StrSliceExecFns, StringExecFns};

use crate::kind::{char_utf8_len, spec_drive_code, spec_is_absolute, spec_kind,
    spec_normal_prefix, spec_prefix_chars, starts_verbatim, ParsedUtf8Path, WinPathKind};
use crate::model::{dot, dotdot, find_first, is_dot_space, is_win_sep, join_with,
    lemma_find_first_bounds, lemma_find_first_is, lemma_join_push,
    lemma_split_on_components_free, lemma_split_on_congruence, lemma_split_on_first,
    lemma_split_on_join, lemma_split_on_len, lemma_trimmed_len_bounds, lemma_trimmed_len_is,
    lemma_walk_cons, lemma_walk_survivors_clean, lemma_walk_survivors_free, pair_sep_fn, split_on,
    spec_trim_full, strip_one_dot, trimmed_len, walk, walk_clean_component, win_sep_fn};
use crate::strops::{split_str_on, str_views, trimmed_len_str, walk_strs};

verus! {

/// A run of `n` parent-directory components.
pub open spec fn dotdots(n: nat) -> Seq<Seq<char>> {
    Seq::new(n, |i: int| dotdot())
}

/// The components of the cleaned subpath, in order: re-emitted leading `..`
/// components (for paths with no fixed root), the survivors of the walk, and
/// a trailing empty component when the subpath ended with a separator.
pub open spec fn spec_out_comps(k: WinPathKind, sub: Seq<char>) -> Seq<Seq<char>> {
    let w = walk(split_on(sub, win_sep_fn()), 0);
    let lead = if !spec_is_absolute(k) && !(k is RootRelative) {
        w.1
    } else {
        0
    };
    let trail = if sub.len() > 0 && is_win_sep(sub.last()) {
        seq![Seq::<char>::empty()]
    } else {
        Seq::<Seq<char>>::empty()
    };
    dotdots(lead) + w.0 + trail
}

/// The server name within a UNC prefix region (the part after `\\`).
pub open spec fn unc_server(p: Seq<char>) -> Seq<char> {
    p.take(find_first(p, win_sep_fn()) as int)
}

/// Whether the UNC prefix region holds a share name, possibly empty.
pub open spec fn unc_has_share(p: Seq<char>) -> bool {
    find_first(p, win_sep_fn()) < p.len()
}

/// The share name within a UNC prefix region.
pub open spec fn unc_share(p: Seq<char>) -> Seq<char> {
    p.skip(find_first(p, win_sep_fn()) as int + 1)
}

/// The reconstructed UNC prefix: `\\server\share`, with a missing or empty
/// share omitted.
pub open spec fn spec_unc_prefix_out(p: Seq<char>) -> Seq<char> {
    if unc_has_share(p) && unc_share(p).len() > 0 {
        seq!['\\', '\\'] + unc_server(p) + seq!['\\'] + unc_share(p)
    } else {
        seq!['\\', '\\'] + unc_server(p)
    }
}

/// The cleaned path before the final trailing trim: normalized prefix plus
/// the surviving components joined by `\`.
pub open spec fn spec_clean_full(s: Seq<char>) -> Seq<char> {
    let k = spec_kind(s);
    let plen = spec_prefix_chars(s);
    let sub = s.skip(plen);
    let out = spec_out_comps(k, sub);
    let body = join_with(out, '\\');
    if k is Unc {
        let p = s.subrange(2, plen);
        if out.len() > 0 {
            spec_unc_prefix_out(p) + seq!['\\'] + body
        } else {
            spec_unc_prefix_out(p)
        }
    } else {
        spec_normal_prefix(s) + body
    }
}

/// What `clean` returns: the input itself for a verbatim path, otherwise the
/// reassembled path with its trailing dots and spaces trimmed.
pub open spec fn spec_clean(s: Seq<char>) -> Seq<char> {
    if spec_kind(s) is Verbatim {
        s
    } else {
        spec_trim_full(spec_clean_full(s))
    }
}

/// The count of leading `..` components.
pub open spec fn lead_count(cs: Seq<Seq<char>>) -> nat
    decreases cs.len(),
{
    if cs.len() > 0 && cs[0] == dotdot() {
        (1 + lead_count(cs.drop_first())) as nat
    } else {
        0
    }
}

/// How many `..` components lead a path, before its first other component.
pub open spec fn leading_dotdots(s: Seq<char>) -> nat {
    lead_count(split_on(s, win_sep_fn()))
}

/// The text of `m` parent references, each with a trailing separator.
spec fn ddpre(m: nat) -> Seq<char>
    decreases m,
{
    if m == 0 {
        Seq::empty()
    } else {
        dotdot() + seq!['\\'] + ddpre((m - 1) as nat)
    }
}

proof fn lemma_ddpre_chars(m: nat)
    ensures
        ddpre(m).len() == 3 * m,
        forall|i: int|
            0 <= i < 3 * m ==> ddpre(m)[i] == (if i % 3 == 2 {
                '\\'
            } else {
                '.'
            }),
    decreases m,
{
    if m > 0 {
        lemma_ddpre_chars((m - 1) as nat);
        assert forall|i: int|
            0 <= i < 3 * m implies ddpre(m)[i] == (if i % 3 == 2 {
            '\\'
        } else {
            '.'
        }) by {
            if i >= 3 {
                assert(ddpre(m)[i] == ddpre((m - 1) as nat)[i - 3]);
                assert((i - 3) % 3 == i % 3);
            }
        }
    }
}

proof fn lemma_lead_count_dotdots(m: nat, cs: Seq<Seq<char>>)
    requires
        cs.len() == 0 || cs[0] != dotdot(),
    ensures
        lead_count(dotdots(m) + cs) == m,
    decreases m,
{
    if m == 0 {
        assert(dotdots(0nat) + cs =~= cs);
    } else {
        assert((dotdots(m) + cs)[0] == dotdot());
        assert((dotdots(m) + cs).drop_first() =~= dotdots((m - 1) as nat) + cs);
        lemma_lead_count_dotdots((m - 1) as nat, cs);
    }
}

proof fn lemma_join_dotdots(m: nat, rest: Seq<Seq<char>>)
    requires
        rest.len() > 0,
    ensures
        join_with(dotdots(m) + rest, '\\') == ddpre(m) + join_with(rest, '\\'),
    decreases m,
{
    if m == 0 {
        assert(dotdots(0nat) + rest =~= rest);
        assert(ddpre(0nat) + join_with(rest, '\\') =~= join_with(rest, '\\'));
    } else {
        let whole = dotdots(m) + rest;
        assert(whole[0] == dotdot());
        assert(whole.drop_first() =~= dotdots((m - 1) as nat) + rest);
        assert(whole.len() >= 2);
        lemma_join_dotdots((m - 1) as nat, rest);
        assert(join_with(whole, '\\') == dotdot() + seq!['\\'] + (ddpre((m - 1) as nat)
            + join_with(rest, '\\')));
        assert(dotdot() + seq!['\\'] + (ddpre((m - 1) as nat) + join_with(rest, '\\')) =~= ddpre(m)
            + join_with(rest, '\\'));
    }
}

proof fn lemma_split_ddpre(m: nat, y: Seq<char>)
    ensures
        split_on(ddpre(m) + y, win_sep_fn()) == dotdots(m) + split_on(y, win_sep_fn()),
    decreases m,
{
    if m == 0 {
        assert(ddpre(0nat) + y =~= y);
        assert(dotdots(0nat) + split_on(y, win_sep_fn()) =~= split_on(y, win_sep_fn()));
    } else {
        let x = ddpre(m) + y;
        assert(x[0] == '.' && x[1] == '.' && x[2] == '\\');
        lemma_split_on_first(x, win_sep_fn(), 2);
        assert(x.take(2) =~= dotdot());
        assert(x.skip(3) =~= ddpre((m - 1) as nat) + y);
        lemma_split_ddpre((m - 1) as nat, y);
        assert(seq![dotdot()] + (dotdots((m - 1) as nat) + split_on(y, win_sep_fn())) =~= dotdots(
            m,
        ) + split_on(y, win_sep_fn()));
    }
}

/// The first component of a right-truncated sequence is no `..` when the
/// whole sequence's first component is none and the cut falls after a
/// non-dot character.
proof fn lemma_first_comp_of_take(y: Seq<char>, q: int)
    requires
        0 <= q <= y.len(),
        q > 0 ==> !is_dot_space(y[q - 1]),
        split_on(y, win_sep_fn())[0] != dotdot(),
    ensures
        split_on(y.take(q), win_sep_fn())[0] != dotdot(),
{
    let f = win_sep_fn();
    let z = y.take(q);
    let p1 = find_first(y, f) as int;
    lemma_find_first_bounds(y, f);
    lemma_split_on_first(y, f, p1);
    if q == 0 {
        assert(z.len() == 0);
        lemma_split_on_first(z, f, 0);
        assert(split_on(z, f)[0] == z);
    } else if q <= p1 {
        assert(forall|j: int| 0 <= j < q ==> !f(z[j]));
        lemma_split_on_first(z, f, q);
        assert(split_on(z, f)[0] == z);
        if z == dotdot() {
            assert(z[q - 1] == '.');
            assert(is_dot_space(y[q - 1]));
        }
    } else {
        assert(forall|j: int| 0 <= j < p1 ==> !f(z[j]));
        assert(f(z[p1]));
        lemma_split_on_first(z, f, p1);
        assert(split_on(z, f)[0] == z.take(p1));
        assert(z.take(p1) =~= y.take(p1));
        assert(split_on(y, f)[0] == y.take(p1));
    }
}

/// The leading `..` count of the cleaner's assembled and trimmed body is
/// exactly the count of re-emitted parent references.
proof fn lemma_lead_of_out(m: nat, sv: Seq<Seq<char>>, tr: Seq<Seq<char>>)
    requires
        forall|k: int| 0 <= k < sv.len() ==> walk_clean_component(#[trigger] sv[k]),
        forall|k: int, j: int|
            0 <= k < sv.len() && 0 <= j < sv[k].len() ==> !win_sep_fn()(#[trigger] sv[k][j]),
        tr == Seq::<Seq<char>>::empty() || tr == seq![Seq::<char>::empty()],
    ensures
        leading_dotdots(spec_trim_full(join_with(dotdots(m) + sv + tr, '\\'))) == m,
{
    let f = win_sep_fn();
    let out = dotdots(m) + sv + tr;
    let rest = sv + tr;
    let j = join_with(out, '\\');
    lemma_ddpre_chars(m);
    if rest.len() == 0 {
        assert(out =~= dotdots(m));
        if m == 0 {
            assert(out =~= Seq::<Seq<char>>::empty());
            assert(j =~= Seq::<char>::empty());
            assert(trimmed_len(j) == 0);
            assert(spec_trim_full(j) == j);
            lemma_split_on_first(j, f, 0);
            assert(split_on(j, f)[0] == j);
            assert(leading_dotdots(j) == 0);
        } else if m == 1 {
            assert(out =~= seq![dotdot()]);
            assert(j == dotdot());
            lemma_trimmed_len_is(j, 0);
            assert(spec_trim_full(j) == j);
            lemma_split_on_first(j, f, 2);
            assert(split_on(j, f) == seq![j]);
            assert(split_on(j, f).drop_first() =~= Seq::<Seq<char>>::empty());
            assert(lead_count(Seq::<Seq<char>>::empty()) == 0);
            assert(leading_dotdots(j) == 1);
        } else {
            assert(out =~= dotdots((m - 1) as nat) + seq![dotdot()]);
            lemma_join_dotdots((m - 1) as nat, seq![dotdot()]);
            assert(join_with(seq![dotdot()], '\\') == dotdot());
            assert(j == ddpre((m - 1) as nat) + dotdot());
            lemma_ddpre_chars((m - 1) as nat);
            assert(j.len() == 3 * m - 1);
            assert forall|i: int| 3 * m - 3 <= i < j.len() implies is_dot_space(j[i]) by {
                assert(j[i] == dotdot()[i - (3 * m - 3)]);
            }
            assert(j[3 * m - 4] == ddpre((m - 1) as nat)[3 * m - 4]);
            assert((3 * m - 4) % 3 == 2) by (nonlinear_arith);
            assert(j[3 * m - 4] == '\\');
            lemma_trimmed_len_is(j, 3 * m - 3);
            assert(j.skip(3 * m - 3) =~= dotdot());
            assert(is_win_sep(j[3 * m - 4]));
            assert(spec_trim_full(j) == j);
            lemma_split_ddpre((m - 1) as nat, dotdot());
            lemma_split_on_first(dotdot(), f, 2);
            assert(split_on(dotdot(), f) == seq![dotdot()]);
            assert(split_on(j, f) == dotdots((m - 1) as nat) + seq![dotdot()]);
            assert(dotdots((m - 1) as nat) + seq![dotdot()] =~= dotdots(m)
                + Seq::<Seq<char>>::empty());
            lemma_lead_count_dotdots(m, Seq::<Seq<char>>::empty());
            assert(leading_dotdots(j) == m);
        }
    } else {
        let y = join_with(rest, '\\');
        assert(out =~= dotdots(m) + rest);
        lemma_join_dotdots(m, rest);
        assert(j == ddpre(m) + y);
        assert forall|k: int, l: int|
            0 <= k < rest.len() && 0 <= l < rest[k].len() implies !f(rest[k][l]) by {
            if k < sv.len() {
                assert(rest[k] == sv[k]);
            } else {
                assert(rest[k] == tr[k - sv.len()]);
            }
        }
        lemma_split_on_join(rest, '\\', f);
        assert(split_on(y, f) == rest);
        assert(rest[0] != dotdot()) by {
            if sv.len() > 0 {
                assert(rest[0] == sv[0]);
                assert(walk_clean_component(sv[0]));
            } else {
                assert(rest[0] == tr[0]);
                assert(rest[0].len() == 0);
            }
        }
        let n = trimmed_len(j) as int;
        lemma_trimmed_len_bounds(j);
        if m > 0 {
            assert(!is_dot_space(j[3 * m - 1])) by {
                assert(j[3 * m - 1] == ddpre(m)[3 * m - 1]);
                assert((3 * m - 1) % 3 == 2) by (nonlinear_arith);
            }
            assert(n >= 3 * m);
        }
        let r = spec_trim_full(j);
        if n == 0 {
            assert(r == j);
            assert(m == 0);
            assert(j =~= y);
            assert(leading_dotdots(j) == 0);
        } else if (j.skip(n) == dot() || j.skip(n) == dotdot()) && is_win_sep(j[n - 1]) {
            assert(r == j);
            lemma_split_ddpre(m, y);
            lemma_lead_count_dotdots(m, rest);
            assert(leading_dotdots(j) == m);
        } else {
            assert(r == j.take(n));
            let q = n - 3 * m;
            assert(0 <= q <= y.len());
            assert(j.take(n) =~= ddpre(m) + y.take(q));
            if q > 0 {
                assert(y[q - 1] == j[n - 1]);
                assert(!is_dot_space(y[q - 1]));
            }
            lemma_first_comp_of_take(y, q);
            lemma_split_ddpre(m, y.take(q));
            lemma_split_on_len(y.take(q), f);
            lemma_lead_count_dotdots(m, split_on(y.take(q), f));
            assert(leading_dotdots(r) == m);
        }
    }
}

/// Trimming an already trimmed string changes nothing.
proof fn lemma_trim_idempotent(x: Seq<char>)
    ensures
        spec_trim_full(spec_trim_full(x)) == spec_trim_full(x),
{
    let n = trimmed_len(x) as int;
    lemma_trimmed_len_bounds(x);
    let r = spec_trim_full(x);
    if r == x {
    } else {
        assert(r == x.take(n));
        assert(n > 0);
        assert(!is_dot_space(r[n - 1]));
        lemma_trimmed_len_is(r, n);
        assert(r.skip(n) =~= Seq::<char>::empty());
        assert(spec_trim_full(r) == r.take(n));
        assert(r.take(n) =~= r);
    }
}

/// A join of slash-free components with the backslash separator holds no
/// slash.
proof fn lemma_join_no_slash(out: Seq<Seq<char>>)
    requires
        forall|k: int, j: int| 0 <= k < out.len() && 0 <= j < out[k].len() ==> out[k][j] != '/',
    ensures
        forall|i: int| 0 <= i < join_with(out, '\\').len() ==> join_with(out, '\\')[i] != '/',
    decreases out.len(),
{
    let y = join_with(out, '\\');
    if out.len() == 0 {
    } else if out.len() == 1 {
        assert(y == out[0]);
    } else {
        let rest = out.drop_first();
        assert forall|k: int, j: int|
            0 <= k < rest.len() && 0 <= j < rest[k].len() implies rest[k][j] != '/' by {
            assert(rest[k] == out[k + 1]);
        }
        lemma_join_no_slash(rest);
        assert(y == out[0] + seq!['\\'] + join_with(rest, '\\'));
        assert forall|i: int| 0 <= i < y.len() implies y[i] != '/' by {
            if i < out[0].len() {
                assert(y[i] == out[0][i]);
            } else if i == out[0].len() {
                assert(y[i] == '\\');
            } else {
                assert(y[i] == join_with(rest, '\\')[i - out[0].len() - 1]);
            }
        }
    }
}

/// Parent references prepended to a component list only raise the walk's
/// leftover count.
proof fn lemma_walk_dotdots_prepend(m: nat, cs: Seq<Seq<char>>, pending: nat)
    ensures
        walk(dotdots(m) + cs, pending).0 == walk(cs, pending).0,
        walk(dotdots(m) + cs, pending).1 == walk(cs, pending).1 + m,
    decreases m,
{
    if m == 0 {
        assert(dotdots(0nat) + cs =~= cs);
    } else {
        assert(dotdots(m) + cs =~= seq![dotdot()] + (dotdots((m - 1) as nat) + cs));
        lemma_walk_cons(dotdot(), dotdots((m - 1) as nat) + cs, pending);
        lemma_walk_dotdots_prepend((m - 1) as nat, cs, pending);
    }
}

/// A walk over clean components with at most a trailing empty one keeps
/// them, dropping only that trailing empty.
proof fn lemma_walk_identity_trail(cs: Seq<Seq<char>>)
    requires
        forall|k: int|
            0 <= k < cs.len() ==> walk_clean_component(#[trigger] cs[k]) || (k == cs.len() - 1
                && cs[k].len() == 0),
    ensures
        cs.len() > 0 && cs.last().len() == 0 ==> walk(cs, 0).0 == cs.drop_last() && walk(
            cs,
            0,
        ).1 == 0,
        !(cs.len() > 0 && cs.last().len() == 0) ==> walk(cs, 0).0 == cs && walk(cs, 0).1 == 0,
{
    reveal_with_fuel(walk, 2);
    if cs.len() > 0 && cs.last().len() == 0 {
        let rest = cs.drop_last();
        assert forall|k: int| 0 <= k < rest.len() implies walk_clean_component(
            #[trigger] rest[k],
        ) by {
            assert(rest[k] == cs[k]);
            assert(cs[k].len() > 0 || k == cs.len() - 1);
        }
        crate::model::lemma_walk_identity(rest);
        assert(walk(cs, 0) == walk(rest, 0));
    } else if cs.len() > 0 {
        assert forall|k: int| 0 <= k < cs.len() implies walk_clean_component(
            #[trigger] cs[k],
        ) by {}
        crate::model::lemma_walk_identity(cs);
    } else {
        assert(walk(cs, 0).0 =~= cs);
    }
}

/// What a component of the cleaner's output may be: a parent reference, a
/// clean component, or a trailing empty component.
spec fn out_comp_ok(out: Seq<Seq<char>>, k: int) -> bool {
    out[k] == dotdot() || walk_clean_component(out[k]) || (k == out.len() - 1 && out[k].len()
        == 0)
}

/// Cutting a joined component list after a non-dot, non-space character (or
/// taking it whole) leaves a list of the same shape: the untouched
/// components, with at most a truncated but still clean final one.
proof fn lemma_split_of_take(out: Seq<Seq<char>>, q: int)
    requires
        forall|k: int, j: int|
            0 <= k < out.len() && 0 <= j < out[k].len() ==> !win_sep_fn()(#[trigger] out[k][j]),
        forall|k: int| 0 <= k < out.len() ==> out_comp_ok(out, k),
        0 <= q <= join_with(out, '\\').len(),
        0 < q < join_with(out, '\\').len() ==> !is_dot_space(join_with(out, '\\')[q - 1]),
    ensures
        ({
            let cs = split_on(join_with(out, '\\').take(q), win_sep_fn());
            &&& forall|k: int| 0 <= k < cs.len() ==> out_comp_ok(cs, k)
            &&& forall|k: int| 0 <= k < cs.len() - 1 ==> cs[k] == out[k]
            &&& (cs.last() == dotdot() ==> cs.len() <= out.len() && out[cs.len() - 1] == dotdot())
            &&& (out.len() > 0 ==> cs.len() <= out.len())
        }),
    decreases out.len(),
{
    let f = win_sep_fn();
    let y = join_with(out, '\\');
    let t = y.take(q);
    let cs = split_on(t, f);
    if out.len() == 0 {
        assert(y =~= Seq::<char>::empty());
        assert(q == 0);
        lemma_split_on_first(t, f, 0);
        assert(cs == seq![t]);
        assert(cs[0].len() == 0);
    } else if out.len() == 1 {
        assert(y == out[0]);
        assert(forall|j: int| 0 <= j < t.len() ==> !f(t[j]));
        lemma_split_on_first(t, f, t.len() as int);
        assert(cs == seq![t]);
        assert(out_comp_ok(out, 0));
        if q == y.len() {
            assert(t =~= out[0]);
            assert(out_comp_ok(cs, 0));
        } else if q == 0 {
            assert(cs[0].len() == 0);
        } else {
            assert(!is_dot_space(t.last()));
            assert(t.len() > 0 && t != dot() && t != dotdot() && strip_one_dot(t) == t) by {
                if t == dot() || t == dotdot() {
                    assert(t.last() == '.');
                }
            }
            assert(walk_clean_component(cs[0]));
            assert(cs.last() != dotdot());
        }
    } else {
        let h = out[0];
        let rest = out.drop_first();
        let y2 = join_with(rest, '\\');
        assert(y == h + seq!['\\'] + y2);
        assert(out_comp_ok(out, 0));
        assert(h == dotdot() || walk_clean_component(h));
        if q <= h.len() {
            assert(forall|j: int| 0 <= j < t.len() ==> t[j] == h[j] && !f(t[j]));
            lemma_split_on_first(t, f, t.len() as int);
            assert(cs == seq![t]);
            if q == 0 {
                assert(cs[0].len() == 0);
            } else if q == h.len() {
                assert(t =~= h);
                assert(out_comp_ok(cs, 0));
                if cs.last() == dotdot() {
                    assert(out[0] == dotdot());
                }
            } else {
                assert(y[q - 1] == h[q - 1]);
                assert(!is_dot_space(t.last()));
                assert(t.len() > 0 && t != dot() && t != dotdot() && strip_one_dot(t) == t) by {
                    if t == dot() || t == dotdot() {
                        assert(t.last() == '.');
                    }
                }
                assert(walk_clean_component(cs[0]));
                assert(cs.last() != dotdot());
            }
        } else {
            assert(forall|j: int| 0 <= j < h.len() ==> t[j] == h[j] && !f(t[j]));
            assert(t[h.len() as int] == '\\');
            lemma_split_on_first(t, f, h.len() as int);
            let q2i = q - h.len() - 1;
            assert(t.take(h.len() as int) =~= h);
            assert(t.skip(h.len() as int + 1) =~= y2.take(q2i));
            let cs2 = split_on(y2.take(q2i), f);
            assert(cs == seq![h] + cs2);
            assert forall|k: int, j: int|
                0 <= k < rest.len() && 0 <= j < rest[k].len() implies !f(#[trigger] rest[k][j]) by {
                assert(rest[k] == out[k + 1]);
            }
            assert forall|k: int| 0 <= k < rest.len() implies out_comp_ok(rest, k) by {
                assert(rest[k] == out[k + 1]);
                assert(out_comp_ok(out, k + 1));
            }
            assert(0 <= q2i <= y2.len());
            if 0 < q2i < y2.len() {
                assert(y[q - 1] == y2[q2i - 1]);
            }
            lemma_split_of_take(rest, q2i);
            assert forall|k: int| 0 <= k < cs.len() implies out_comp_ok(cs, k) by {
                if k == 0 {
                } else {
                    assert(cs[k] == cs2[k - 1]);
                    assert(out_comp_ok(cs2, k - 1));
                }
            }
            assert(cs.len() == 1 + cs2.len());
            assert(cs2.len() <= rest.len());
            assert forall|k: int| 0 <= k < cs.len() - 1 implies cs[k] == out[k] by {
                if k > 0 {
                    assert(cs[k] == cs2[k - 1]);
                    assert(k - 1 < cs2.len() - 1);
                    assert(cs2[k - 1] == rest[k - 1]);
                    assert(rest[k - 1] == out[k]);
                }
            }
            if cs.last() == dotdot() {
                assert(cs2.last() == dotdot());
                assert(rest[cs2.len() - 1] == dotdot());
                assert(out[cs.len() - 1] == rest[cs2.len() - 1]);
            }
        }
    }
}

/// Re-walking a component list of the cleaner's shape rebuilds the very
/// same text: the leading parent references are counted and re-emitted, the
/// clean components survive unchanged, and a trailing empty component is
/// dropped and re-added for the trailing separator.
proof fn lemma_rebuild(t: Seq<char>, m: int)
    requires
        forall|i: int| 0 <= i < t.len() ==> t[i] != '/',
        0 <= m <= split_on(t, win_sep_fn()).len(),
        forall|k: int| 0 <= k < m ==> split_on(t, win_sep_fn())[k] == dotdot(),
        forall|k: int|
            m <= k < split_on(t, win_sep_fn()).len() ==> split_on(t, win_sep_fn())[k] != dotdot(),
        forall|k: int|
            0 <= k < split_on(t, win_sep_fn()).len() ==> out_comp_ok(
                split_on(t, win_sep_fn()),
                k,
            ),
    ensures
        walk(split_on(t, win_sep_fn()), 0).1 == m,
        join_with(
            dotdots(m as nat) + walk(split_on(t, win_sep_fn()), 0).0 + (if t.len() > 0
                && is_win_sep(t.last()) {
                seq![Seq::<char>::empty()]
            } else {
                Seq::<Seq<char>>::empty()
            }),
            '\\',
        ) == t,
{
    let f = win_sep_fn();
    let cs = split_on(t, f);
    let rest = cs.skip(m);
    assert(cs =~= dotdots(m as nat) + rest);
    assert forall|k: int| 0 <= k < rest.len() implies walk_clean_component(#[trigger] rest[k]) || (
    k == rest.len() - 1 && rest[k].len() == 0) by {
        assert(rest[k] == cs[m + k]);
        assert(out_comp_ok(cs, m + k));
        assert(cs[m + k] != dotdot());
    }
    lemma_walk_dotdots_prepend(m as nat, rest, 0);
    lemma_walk_identity_trail(rest);
    let w = walk(cs, 0);
    assert(w.1 == m);
    crate::model::lemma_join_split_on(t, '\\');
    assert forall|i: int| 0 <= i < t.len() implies pair_sep_fn('\\', '\\')(#[trigger] t[i])
        == f(t[i]) by {}
    crate::model::lemma_split_on_congruence_local(t, pair_sep_fn('\\', '\\'), f);
    assert forall|c: char| #[trigger] pair_sep_fn('\\', '\\')(c) == crate::model::eq_sep_fn(
        '\\',
    )(c) by {}
    lemma_split_on_congruence(t, pair_sep_fn('\\', '\\'), crate::model::eq_sep_fn('\\'));
    assert(join_with(cs, '\\') == t);
    if t.len() == 0 {
        lemma_split_on_first(t, f, 0);
        assert(cs == seq![t]);
        assert(m == 0) by {
            if m == 1 {
                assert(cs[0] == dotdot());
            }
        }
        assert(rest =~= cs);
        assert(walk(cs, 0).0 =~= Seq::<Seq<char>>::empty()) by {
            reveal_with_fuel(walk, 3);
        }
        assert(dotdots(0nat) + walk(cs, 0).0 + Seq::<Seq<char>>::empty()
            =~= Seq::<Seq<char>>::empty());
    } else {
        crate::model::lemma_split_on_last(t, f);
        crate::model::lemma_split_on_len(t, f);
        if is_win_sep(t.last()) {
            assert(cs.last().len() == 0);
            assert(rest.len() > 0 && rest.last().len() == 0) by {
                assert(rest.last() == cs.last());
                if rest.len() == 0 {
                    assert(cs[cs.len() - 1] == dotdot());
                }
            }
            assert(w.0 == rest.drop_last());
            assert(rest.last() =~= Seq::<char>::empty());
            assert(dotdots(m as nat) + w.0 + seq![Seq::<char>::empty()] =~= cs);
        } else {
            assert(cs.last().len() > 0);
            if rest.len() > 0 {
                assert(rest.last() == cs.last());
                assert(!(rest.last().len() == 0));
                assert(w.0 == rest);
            } else {
                assert(w.0 =~= rest);
            }
            assert(dotdots(m as nat) + w.0 + Seq::<Seq<char>>::empty() =~= cs);
        }
    }
}

/// Trimming returns the string itself or a prefix of it.
proof fn lemma_trim_shape(x: Seq<char>)
    ensures
        spec_trim_full(x) == x || spec_trim_full(x) == x.take(trimmed_len(x) as int),
        spec_trim_full(x).len() <= x.len(),
        forall|i: int| 0 <= i < spec_trim_full(x).len() ==> spec_trim_full(x)[i] == x[i],
{
    lemma_trimmed_len_bounds(x);
}

/// Trimming keeps every index up to a non-dot, non-space character.
proof fn lemma_trim_keeps(x: Seq<char>, k: int)
    requires
        1 <= k <= x.len(),
        !is_dot_space(x[k - 1]),
    ensures
        spec_trim_full(x).len() >= k,
        forall|i: int| 0 <= i < k ==> spec_trim_full(x)[i] == x[i],
{
    lemma_trimmed_len_bounds(x);
    assert(trimmed_len(x) >= k);
}

/// Kind stability under cleaning: a drive, drive-relative, UNC, verbatim
/// or root-relative path keeps its kind, and a device path keeps its kind
/// when its marker is the dot. (A device path written with the `?` marker and mixed separators
/// is promoted to a verbatim prefix by cleaning, and a relative path may
/// gain a drive prefix from its own first component; those are the stated
/// exceptions.)
pub proof fn lemma_kind_stable(s: Seq<char>)
    requires
        spec_kind(s) is Drive || spec_kind(s) is Unc || spec_kind(s) is Verbatim || spec_kind(
            s,
        ) is RootRelative || spec_kind(s) is DriveRelative || (spec_kind(s) is Device && s[2]
            == '.'),
    ensures
        spec_kind(spec_clean(s)) == spec_kind(s),
{
    let f = win_sep_fn();
    let k = spec_kind(s);
    if k is Verbatim {
    } else {
        let plen = spec_prefix_chars(s);
        let sub = s.skip(plen);
        let out = spec_out_comps(k, sub);
        let body = join_with(out, '\\');
        let full = spec_clean_full(s);
        let r = spec_clean(s);
        lemma_trim_shape(full);
        lemma_walk_survivors_clean(split_on(sub, f), 0);
        lemma_split_on_components_free(sub, f);
        lemma_walk_survivors_free(split_on(sub, f), 0, f);
        let w = walk(split_on(sub, f), 0);
        assert(out.len() > 0 ==> out[0].len() > 0 ==> !f(out[0][0])) by {
            if out.len() > 0 && out[0].len() > 0 {
                let lead = if !spec_is_absolute(k) && !(k is RootRelative) {
                    w.1
                } else {
                    0
                };
                if 0 < lead {
                    assert(out[0] == dotdots(lead)[0]);
                    assert(out[0] == dotdot());
                } else if w.0.len() > 0 {
                    assert(out[0] == w.0[0]);
                } else {
                    assert(out[0] =~= Seq::<char>::empty());
                }
            }
        }
        assert(out.len() > 0 && out[0].len() > 0 ==> body[0] == out[0][0]) by {
            if out.len() > 0 {
                if out.len() == 1 {
                } else {
                    assert(body == out[0] + seq!['\\'] + join_with(out.drop_first(), '\\'));
                }
            }
        }
        if k is Drive {
            assert(full == (s.take(2) + seq!['\\']) + body);
            assert(full[0] == s[0] && full[1] == ':' && full[2] == '\\');
            lemma_trim_keeps(full, 3);
            assert(r[0] == s[0] && r[1] == ':' && r[2] == '\\');
            assert(!starts_verbatim(r));
            assert(char_utf8_len(s[0]) < 4);
            assert(!is_win_sep(s[0]));
            assert(spec_kind(r) == WinPathKind::Drive(spec_drive_code(s[0])));
        } else if k is RootRelative {
            assert(full == seq!['\\'] + body);
            assert(full[0] == '\\');
            lemma_trim_keeps(full, 1);
            assert(r[0] == '\\');
            if r.len() >= 2 {
                assert(r[1] == full[1]);
                assert(full[1] == body[0]);
                assert(out.len() > 0 && body.len() > 0);
                assert(out[0].len() > 0) by {
                    if out[0].len() == 0 {
                        assert(out[0] == w.0[0] || out == seq![Seq::<char>::empty()]);
                        if out == seq![Seq::<char>::empty()] {
                            assert(body =~= Seq::<char>::empty());
                        }
                    }
                }
                assert(!f(body[0]));
                assert(!is_win_sep(r[1]));
            }
            assert(spec_kind(r) == WinPathKind::RootRelative);
        } else if k is DriveRelative {
            assert(full == s.take(2) + body);
            assert(full[0] == s[0] && full[1] == ':');
            lemma_trim_keeps(full, 2);
            assert(r[0] == s[0] && r[1] == ':');
            assert(!starts_verbatim(r));
            assert(char_utf8_len(s[0]) < 4);
            assert(!is_win_sep(s[0]));
            if r.len() >= 3 {
                assert(r[2] == full[2]);
                assert(full[2] == body[0]);
                assert(out.len() > 0 && body.len() > 0);
                assert(out[0].len() > 0) by {
                    let lead = walk(split_on(sub, f), 0).1;
                    let tr: Seq<Seq<char>> = if sub.len() > 0 && is_win_sep(sub.last()) {
                        seq![Seq::<char>::empty()]
                    } else {
                        Seq::<Seq<char>>::empty()
                    };
                    assert(out == dotdots(lead) + w.0 + tr);
                    if out[0].len() == 0 {
                        if 0 < lead {
                            assert(out[0] == dotdots(lead)[0]);
                        } else if w.0.len() > 0 {
                            assert(out[0] == w.0[0]);
                            assert(walk_clean_component(w.0[0]));
                        } else {
                            assert(out =~= tr);
                            assert(body =~= Seq::<char>::empty());
                        }
                    }
                }
                assert(!f(body[0]));
                assert(!is_win_sep(r[2]));
            }
            assert(spec_kind(r) == WinPathKind::DriveRelative(spec_drive_code(s[0])));
        } else if k is Device {
            assert(full == (seq!['\\', '\\'] + seq![s[2]] + seq!['\\']) + body);
            assert(full[0] == '\\' && full[1] == '\\' && full[2] == '.' && full[3] == '\\');
            lemma_trim_keeps(full, 4);
            assert(r[0] == '\\' && r[1] == '\\' && r[2] == '.' && r[3] == '\\');
            assert(!starts_verbatim(r));
            assert(spec_kind(r) == WinPathKind::Device);
        } else {
            let p = s.subrange(2, plen);
            let p1 = find_first(p, f) as int;
            lemma_find_first_bounds(p, f);
            let server = unc_server(p);
            let pre = spec_unc_prefix_out(p);
            assert(full == if out.len() > 0 {
                pre + seq!['\\'] + body
            } else {
                pre
            });
            assert(full[0] == '\\' && full[1] == '\\');
            lemma_trim_keeps(full, 2);
            assert(r[0] == '\\' && r[1] == '\\');
            assert(r.len() >= 4 && (r[2] == '.' || r[2] == '?') ==> !is_win_sep(r[3])) by {
                if r.len() >= 4 && (r[2] == '.' || r[2] == '?') {
                    assert(r[2] == full[2] && r[3] == full[3]);
                    assert(server.len() >= 1) by {
                        if server.len() == 0 {
                            assert(full[2] == '\\');
                        }
                    }
                    assert(full[2] == server[0]);
                    assert(server[0] == p[0] && p[0] == s[2]);
                    if server.len() == 1 {
                        if p1 < p.len() {
                            assert(p[1] == s[3] && f(p[1]));
                            assert(spec_kind(s) is Device || spec_kind(s) is Verbatim);
                        } else {
                            assert(p =~= server);
                            assert(plen == s.len());
                            assert(sub =~= Seq::<char>::empty());
                            assert(split_on(sub, f) =~= seq![Seq::<char>::empty()]) by {
                                lemma_split_on_first(sub, f, 0);
                            }
                            assert(w.0 =~= Seq::<Seq<char>>::empty() && w.1 == 0) by {
                                reveal_with_fuel(walk, 3);
                            }
                            assert(out =~= Seq::<Seq<char>>::empty());
                            assert(pre =~= seq!['\\', '\\'] + server);
                            assert(full.len() == 3);
                            assert(r.len() <= 3);
                        }
                    } else {
                        assert(full[3] == server[1]);
                        assert(!f(server[1])) by {
                            assert(server[1] == p[1]);
                            assert(1 < p1);
                        }
                    }
                }
            }
            assert(!starts_verbatim(r));
            assert(spec_kind(r) == WinPathKind::Unc);
        }
    }
}

/// Cutting the cleaner's assembled body after a kept character and walking
/// it again rebuilds the same text, with no more leading parent references
/// than before.
#[verifier::spinoff_prover]
proof fn lemma_cut_and_rebuild(out: Seq<Seq<char>>, lead: int, q: int)
    requires
        0 <= lead <= out.len(),
        forall|kk: int| 0 <= kk < out.len() ==> out_comp_ok(out, kk),
        forall|kk: int, j: int|
            0 <= kk < out.len() && 0 <= j < out[kk].len() ==> !win_sep_fn()(
                #[trigger] out[kk][j],
            ),
        forall|kk: int| 0 <= kk < out.len() ==> ((out[kk] == dotdot()) == (kk < lead)),
        0 <= q <= join_with(out, '\\').len(),
        0 < q < join_with(out, '\\').len() ==> !is_dot_space(join_with(out, '\\')[q - 1]),
    ensures
        ({
            let t = join_with(out, '\\').take(q);
            let w2 = walk(split_on(t, win_sep_fn()), 0);
            let tr2: Seq<Seq<char>> = if t.len() > 0 && is_win_sep(t.last()) {
                seq![Seq::<char>::empty()]
            } else {
                Seq::<Seq<char>>::empty()
            };
            &&& w2.1 <= lead
            &&& (lead == 0 ==> w2.1 == 0)
            &&& join_with(dotdots(w2.1) + w2.0 + tr2, '\\') == t
        }),
{
    let f = win_sep_fn();
    let body = join_with(out, '\\');
    let t = body.take(q);
    lemma_split_of_take(out, q);
    let cs2 = split_on(t, f);
    let m2: int = if cs2.last() == dotdot() {
        cs2.len() as int
    } else if cs2.len() - 1 <= lead {
        cs2.len() - 1
    } else {
        lead as int
    };
    assert(0 <= m2 <= cs2.len());
    assert(m2 <= lead || m2 == cs2.len() - 1) by {
        if cs2.last() == dotdot() {
            assert(out[cs2.len() - 1] == dotdot());
            assert(cs2.len() - 1 < lead);
        }
    }
    assert forall|kk: int| 0 <= kk < m2 implies cs2[kk] == dotdot() by {
        if kk < cs2.len() - 1 {
            assert(cs2[kk] == out[kk]);
            assert(kk < lead) by {
                if cs2.last() == dotdot() {
                    assert(out[cs2.len() - 1] == dotdot());
                    assert(cs2.len() - 1 < lead);
                }
            }
        }
    }
    assert forall|kk: int| m2 <= kk < cs2.len() implies cs2[kk] != dotdot() by {
        if kk < cs2.len() - 1 {
            assert(cs2[kk] == out[kk]);
            assert(kk >= lead);
        }
    }
    assert(m2 <= lead) by {
        if m2 == cs2.len() - 1 && m2 > lead {
            assert(cs2[lead] == out[lead]);
        }
    }
    lemma_join_no_slash(out);
    assert forall|i: int| 0 <= i < t.len() implies t[i] != '/' by {
        assert(t[i] == body[i]);
    }
    lemma_rebuild(t, m2);
}

/// Cutting a joined component list after a non-dot, non-space character
/// (or taking it whole) keeps every component before the cut and leaves at
/// most a truncated final one: empty, or ending in the kept character.
proof fn lemma_split_of_take_any(out: Seq<Seq<char>>, q: int)
    requires
        forall|k: int, j: int|
            0 <= k < out.len() && 0 <= j < out[k].len() ==> !win_sep_fn()(#[trigger] out[k][j]),
        0 <= q <= join_with(out, '\\').len(),
        0 < q < join_with(out, '\\').len() ==> !is_dot_space(join_with(out, '\\')[q - 1]),
    ensures
        ({
            let cs = split_on(join_with(out, '\\').take(q), win_sep_fn());
            &&& forall|k: int| 0 <= k < cs.len() - 1 ==> cs[k] == out[k]
            &&& (out.len() > 0 ==> cs.len() <= out.len())
            &&& (out.len() > 0 ==> cs.last() == out[cs.len() - 1] || cs.last().len() == 0 || (
            !is_dot_space(cs.last().last()) && cs.last() == out[cs.len() - 1].take(
                cs.last().len() as int,
            )))
        }),
    decreases out.len(),
{
    let f = win_sep_fn();
    let y = join_with(out, '\\');
    let t = y.take(q);
    let cs = split_on(t, f);
    if out.len() == 0 {
        assert(y =~= Seq::<char>::empty());
        assert(q == 0);
        lemma_split_on_first(t, f, 0);
        assert(cs == seq![t]);
    } else if out.len() == 1 {
        assert(y == out[0]);
        assert(forall|j: int| 0 <= j < t.len() ==> !f(t[j]));
        lemma_split_on_first(t, f, t.len() as int);
        assert(cs == seq![t]);
        if q == y.len() {
            assert(t =~= out[0]);
        } else if q == 0 {
        } else {
            assert(!is_dot_space(t.last()));
            assert(t =~= out[0].take(t.len() as int));
        }
    } else {
        let h = out[0];
        let rest = out.drop_first();
        let y2 = join_with(rest, '\\');
        assert(y == h + seq!['\\'] + y2);
        if q <= h.len() {
            assert(forall|j: int| 0 <= j < t.len() ==> t[j] == h[j] && !f(t[j]));
            lemma_split_on_first(t, f, t.len() as int);
            assert(cs == seq![t]);
            if q == 0 {
            } else if q == h.len() {
                assert(t =~= h);
            } else {
                assert(y[q - 1] == h[q - 1]);
                assert(!is_dot_space(t.last()));
                assert(t =~= out[0].take(t.len() as int));
            }
        } else {
            assert(forall|j: int| 0 <= j < h.len() ==> t[j] == h[j] && !f(t[j]));
            assert(t[h.len() as int] == '\\');
            lemma_split_on_first(t, f, h.len() as int);
            let q2i = q - h.len() - 1;
            assert(t.take(h.len() as int) =~= h);
            assert(t.skip(h.len() as int + 1) =~= y2.take(q2i));
            let cs2 = split_on(y2.take(q2i), f);
            assert(cs == seq![h] + cs2);
            assert forall|k: int, j: int|
                0 <= k < rest.len() && 0 <= j < rest[k].len() implies !f(#[trigger] rest[k][j]) by {
                assert(rest[k] == out[k + 1]);
            }
            assert(0 <= q2i <= y2.len());
            if 0 < q2i < y2.len() {
                assert(y[q - 1] == y2[q2i - 1]);
            }
            lemma_split_of_take_any(rest, q2i);
            assert(cs.len() == 1 + cs2.len());
            assert(cs2.len() <= rest.len());
            assert forall|k: int| 0 <= k < cs.len() - 1 implies cs[k] == out[k] by {
                if k > 0 {
                    assert(cs[k] == cs2[k - 1]);
                    assert(k - 1 < cs2.len() - 1);
                    assert(cs2[k - 1] == rest[k - 1]);
                    assert(rest[k - 1] == out[k]);
                }
            }
            assert(cs.last() == cs2.last());
            assert(rest[cs2.len() - 1] == out[cs.len() - 1]);
        }
    }
}

/// The single-component shape test, for a component standing alone.
spec fn out_comp_ok_single(c: Seq<char>) -> bool {
    c == dotdot() || walk_clean_component(c)
}

/// Dropping the two leading colon-bearing characters of a clean component
/// leaves a clean component or a bare parent reference.
proof fn lemma_skip_two_keeps_shape(c: Seq<char>)
    requires
        walk_clean_component(c),
        c.len() > 2,
        c[1] == ':',
    ensures
        out_comp_ok_single(c.skip(2)),
{
    let t = c.skip(2);
    assert(t.len() == c.len() - 2);
    assert(t.last() == c.last());
    if t == dotdot() {
    } else {
        assert(t.len() > 0);
        assert(t != dot()) by {
            if t == dot() {
                assert(c.last() == '.');
                assert(c[c.len() - 2] == ':');
                assert(strip_one_dot(c) == c.drop_last());
            }
        }
        assert(strip_one_dot(t) == t) by {
            if t.len() >= 1 && t.last() == '.' && !(t.len() >= 2 && t[t.len() - 2] == '.') {
                if t.len() == 1 {
                    assert(c[c.len() - 2] == ':');
                } else {
                    assert(t[t.len() - 2] == c[c.len() - 2]);
                }
                assert(strip_one_dot(c) == c.drop_last());
            }
        }
        assert(walk_clean_component(t));
    }
}

/// `lead_count` counts exactly the leading parent references.
proof fn lemma_lead_count_bounds(cs: Seq<Seq<char>>)
    ensures
        lead_count(cs) <= cs.len(),
        forall|k: int| 0 <= k < lead_count(cs) ==> cs[k] == dotdot(),
        lead_count(cs) < cs.len() ==> cs[lead_count(cs) as int] != dotdot(),
    decreases cs.len(),
{
    if cs.len() > 0 && cs[0] == dotdot() {
        lemma_lead_count_bounds(cs.drop_first());
        let lc = lead_count(cs);
        assert forall|k: int| 0 <= k < lc implies cs[k] == dotdot() by {
            if k > 0 {
                assert(cs[k] == cs.drop_first()[k - 1]);
            }
        }
        if lc < cs.len() {
            assert(cs[lc as int] == cs.drop_first()[lc - 1]);
        }
    }
}

/// A cleaned, trim-stable text of relative shape cleans to itself.
#[verifier::spinoff_prover]
proof fn lemma_idempotent_relative_text(r: Seq<char>)
    requires
        spec_kind(r) is CurrentDirectoryRelative,
        spec_trim_full(r) == r,
        forall|i: int| 0 <= i < r.len() ==> r[i] != '/',
        forall|kk: int|
            0 <= kk < split_on(r, win_sep_fn()).len() ==> out_comp_ok(
                split_on(r, win_sep_fn()),
                kk,
            ),
        forall|kk: int, jj: int|
            0 <= jj < kk < split_on(r, win_sep_fn()).len() && split_on(r, win_sep_fn())[kk]
                == dotdot() ==> split_on(r, win_sep_fn())[jj] == dotdot(),
    ensures
        spec_clean(r) == r,
{
    let f = win_sep_fn();
    let cs = split_on(r, f);
    let m = lead_count(cs) as int;
    lemma_lead_count_bounds(cs);
    assert forall|kk: int| m <= kk < cs.len() implies cs[kk] != dotdot() by {
        if cs[kk] == dotdot() && kk > m {
            assert(cs[m] == dotdot());
        }
    }
    lemma_rebuild(r, m);
    let w2 = walk(cs, 0);
    let sub2 = r.skip(0);
    assert(sub2 =~= r);
    let tr2: Seq<Seq<char>> = if sub2.len() > 0 && is_win_sep(sub2.last()) {
        seq![Seq::<char>::empty()]
    } else {
        Seq::<Seq<char>>::empty()
    };
    assert(spec_prefix_chars(r) == 0);
    assert(spec_out_comps(spec_kind(r), sub2) == dotdots(w2.1) + w2.0 + tr2);
    assert(join_with(spec_out_comps(spec_kind(r), sub2), '\\') == r);
    assert(spec_normal_prefix(r) =~= Seq::<char>::empty());
    assert(spec_clean_full(r) =~= r);
}

/// A cleaned, trim-stable text that re-classifies as a drive or
/// drive-relative path cleans to itself all the same.
#[verifier::rlimit(50)]
#[verifier::spinoff_prover]
proof fn lemma_idempotent_reparse_text(r: Seq<char>)
    requires
        spec_kind(r) is Drive || spec_kind(r) is DriveRelative,
        spec_trim_full(r) == r,
        forall|i: int| 0 <= i < r.len() ==> r[i] != '/',
        forall|kk: int|
            0 <= kk < split_on(r, win_sep_fn()).len() ==> out_comp_ok(
                split_on(r, win_sep_fn()),
                kk,
            ),
        forall|kk: int| 0 <= kk < split_on(r, win_sep_fn()).len() ==> split_on(r, win_sep_fn())[kk]
            != dotdot(),
    ensures
        spec_clean(r) == r,
{
    let f = win_sep_fn();
    let cs = split_on(r, f);
    let k2 = spec_kind(r);
    assert(r.len() >= 2 && r[1] == ':');
    assert(!is_win_sep(r[0]) && !is_win_sep(r[1]));
    crate::model::lemma_split_on_len(r, f);
    if k2 is Drive {
        assert(is_win_sep(r[2]));
        assert(r[2] == '\\');
        lemma_split_on_first(r, f, 2);
        assert(cs == seq![r.take(2)] + split_on(r.skip(3), f));
        crate::model::lemma_split_on_len(r.skip(3), f);
        assert(cs.len() >= 2);
        let sub2 = r.skip(3);
        let cs3 = split_on(sub2, f);
        assert(cs3 == cs.drop_first());
        assert forall|kk: int| 0 <= kk < cs3.len() implies out_comp_ok(cs3, kk) by {
            assert(cs3[kk] == cs[kk + 1]);
            assert(out_comp_ok(cs, kk + 1));
        }
        assert forall|kk: int| 0 <= kk < cs3.len() implies cs3[kk] != dotdot() by {
            assert(cs3[kk] == cs[kk + 1]);
        }
        assert forall|i: int| 0 <= i < sub2.len() implies sub2[i] != '/' by {
            assert(sub2[i] == r[3 + i]);
        }
        lemma_rebuild(sub2, 0);
        let w3 = walk(cs3, 0);
        let tr3: Seq<Seq<char>> = if sub2.len() > 0 && is_win_sep(sub2.last()) {
            seq![Seq::<char>::empty()]
        } else {
            Seq::<Seq<char>>::empty()
        };
        assert(spec_prefix_chars(r) == 3);
        assert(spec_out_comps(k2, sub2) == dotdots(0nat) + w3.0 + tr3);
        assert(join_with(spec_out_comps(k2, sub2), '\\') == sub2);
        assert(spec_normal_prefix(r) == r.take(2) + seq!['\\']);
        assert(spec_clean_full(r) =~= r);
    } else {
        assert(r.len() == 2 || !is_win_sep(r[2]));
        let p1 = find_first(r, f) as int;
        lemma_find_first_bounds(r, f);
        assert(p1 >= 2) by {
            if p1 < 2 {
                assert(f(r[p1]));
            }
        }
        let sub2 = r.skip(2);
        let cs3 = split_on(sub2, f);
        assert forall|i: int| 0 <= i < sub2.len() implies sub2[i] != '/' by {
            assert(sub2[i] == r[2 + i]);
        }
        lemma_split_on_first(r, f, p1);
        assert forall|j: int| 0 <= j < p1 - 2 implies !f(sub2[j]) by {
            assert(sub2[j] == r[2 + j]);
        }
        if p1 < r.len() {
            assert(f(sub2[p1 - 2]));
        }
        lemma_split_on_first(sub2, f, p1 - 2);
        let head = cs[0].skip(2);
        assert(cs[0] == r.take(p1 as int));
        assert(sub2.take(p1 - 2) =~= head);
        assert(out_comp_ok(cs, 0));
        assert(cs[0].len() >= 2);
        assert(walk_clean_component(cs[0])) by {
            if cs[0].len() == 0 {
            }
        }
        assert(head.len() == 0 ==> cs.len() == 1) by {
            if head.len() == 0 && cs.len() > 1 {
                assert(p1 == 2);
                assert(f(r[2]));
            }
        }
        assert(head.len() > 0 ==> out_comp_ok_single(head)) by {
            if head.len() > 0 {
                lemma_skip_two_keeps_shape(cs[0]);
            }
        }
        let m3: int = if head == dotdot() {
            1
        } else {
            0
        };
        if p1 < r.len() {
            assert(sub2.skip(p1 - 2 + 1) =~= r.skip(p1 + 1));
            assert(cs3 == seq![head] + split_on(r.skip(p1 + 1), f));
            assert(cs.drop_first() =~= split_on(r.skip(p1 + 1), f));
            assert(cs3 == seq![head] + cs.drop_first());
            assert forall|kk: int| 0 <= kk < cs3.len() implies out_comp_ok(cs3, kk) by {
                if kk == 0 {
                    if head.len() == 0 {
                        assert(cs.len() == 1);
                    } else {
                        assert(out_comp_ok_single(head));
                    }
                } else {
                    assert(cs3[kk] == cs[kk]);
                    assert(out_comp_ok(cs, kk));
                }
            }
            assert forall|kk: int| m3 <= kk < cs3.len() implies cs3[kk] != dotdot() by {
                if kk > 0 {
                    assert(cs3[kk] == cs[kk]);
                }
            }
            assert(forall|kk: int| 0 <= kk < m3 ==> cs3[kk] == dotdot());
        } else {
            assert(cs == seq![r.take(p1 as int)]);
            assert(sub2.take(p1 - 2) =~= sub2);
            assert(cs3 == seq![head]);
            assert(forall|kk: int| 0 <= kk < m3 ==> cs3[kk] == dotdot());
            assert forall|kk: int| m3 <= kk < cs3.len() implies cs3[kk] != dotdot() by {}
            assert forall|kk: int| 0 <= kk < cs3.len() implies out_comp_ok(cs3, kk) by {
                if head.len() > 0 {
                    assert(out_comp_ok_single(head));
                }
            }
        }
        lemma_rebuild(sub2, m3);
        let w3 = walk(cs3, 0);
        assert(w3.1 == m3);
        let tr3: Seq<Seq<char>> = if sub2.len() > 0 && is_win_sep(sub2.last()) {
            seq![Seq::<char>::empty()]
        } else {
            Seq::<Seq<char>>::empty()
        };
        assert(spec_prefix_chars(r) == 2);
        assert(spec_out_comps(k2, sub2) == dotdots(m3 as nat) + w3.0 + tr3);
        assert(join_with(spec_out_comps(k2, sub2), '\\') == sub2);
        assert(spec_normal_prefix(r) == r.take(2));
        assert(spec_clean_full(r) =~= r);
    }
}

/// Idempotence of cleaning for a current-directory-relative path. The
/// cleaned text may re-classify as a drive or drive-relative path when its
/// first component carries a colon; the rebuilt text is the same either
/// way.
#[verifier::rlimit(80)]
#[verifier::spinoff_prover]
proof fn lemma_idempotent_relative(s: Seq<char>)
    requires
        spec_kind(s) is CurrentDirectoryRelative,
    ensures
        spec_clean(spec_clean(s)) == spec_clean(s),
{
    let f = win_sep_fn();
    let k = spec_kind(s);
    let sub = s.skip(spec_prefix_chars(s));
    let out = spec_out_comps(k, sub);
    let body = join_with(out, '\\');
    let full = spec_clean_full(s);
    let r = spec_clean(s);
    assert(full =~= body);
    lemma_trim_shape(full);
    lemma_trimmed_len_bounds(full);
    lemma_walk_survivors_clean(split_on(sub, f), 0);
    lemma_split_on_components_free(sub, f);
    lemma_walk_survivors_free(split_on(sub, f), 0, f);
    let w = walk(split_on(sub, f), 0);
    let lead = w.1;
    let tr: Seq<Seq<char>> = if sub.len() > 0 && is_win_sep(sub.last()) {
        seq![Seq::<char>::empty()]
    } else {
        Seq::<Seq<char>>::empty()
    };
    assert(out == dotdots(lead) + w.0 + tr);
    assert forall|kk: int| 0 <= kk < out.len() implies out_comp_ok(out, kk) by {
        if kk < lead {
            assert(out[kk] == dotdot());
        } else if kk - lead < w.0.len() {
            assert(out[kk] == w.0[kk - lead]);
        } else {
            assert(kk == out.len() - 1 && out[kk].len() == 0);
        }
    }
    assert forall|kk: int, j: int|
        0 <= kk < out.len() && 0 <= j < out[kk].len() implies !f(#[trigger] out[kk][j]) by {
        if kk < lead {
            assert(out[kk] == dotdot());
        } else if kk - lead < w.0.len() {
            assert(out[kk] == w.0[kk - lead]);
        } else {
            assert(out[kk].len() == 0);
        }
    }
    assert forall|kk: int| 0 <= kk < out.len() implies ((out[kk] == dotdot()) == (kk < lead)) by {
        if kk < lead {
            assert(out[kk] == dotdots(lead)[kk]);
        } else if kk - lead < w.0.len() {
            assert(out[kk] == w.0[kk - lead]);
            assert(walk_clean_component(out[kk]));
        } else {
            assert(out[kk].len() == 0);
        }
    }
    lemma_join_no_slash(out);
    let n = trimmed_len(full) as int;
    let q: int = if r == full {
        body.len() as int
    } else {
        n
    };
    assert(0 <= q <= body.len());
    assert(r =~= body.take(q)) by {
        if r == full {
            assert(full =~= body.take(body.len() as int));
        } else {
            assert(r == full.take(n));
            assert(full.take(n) =~= body.take(n));
        }
    }
    assert(0 < q < body.len() ==> !is_dot_space(body[q - 1])) by {
        if 0 < q < body.len() && r != full {
            assert(body[q - 1] == full[q - 1]);
        }
    }
    assert forall|i: int| 0 <= i < r.len() implies r[i] != '/' by {
        assert(r[i] == body[i]);
    }
    lemma_split_of_take(out, q);
    let cs = split_on(r, f);
    assert(cs == split_on(body.take(q), f));
    lemma_trim_idempotent(full);
    assert(spec_trim_full(r) == r);
    assert forall|kk: int, jj: int|
        0 <= jj < kk < cs.len() && cs[kk] == dotdot() implies cs[jj] == dotdot() by {
        if kk < cs.len() - 1 {
            assert(cs[kk] == out[kk]);
            assert(kk < lead);
            assert(cs[jj] == out[jj]);
        } else {
            assert(out[cs.len() - 1] == dotdot());
            assert(cs.len() - 1 < lead);
            assert(cs[jj] == out[jj]);
        }
    }
    if r.len() == 0 {
        assert(spec_kind(r) is CurrentDirectoryRelative);
    } else {
        assert(!is_win_sep(r[0])) by {
            assert(r[0] == body[0]);
            assert(out.len() > 0);
            assert(out[0].len() > 0) by {
                if out[0].len() == 0 {
                    if 0 < lead {
                        assert(out[0] == dotdots(lead)[0]);
                    } else if w.0.len() > 0 {
                        assert(out[0] == w.0[0]);
                        assert(walk_clean_component(w.0[0]));
                    } else {
                        assert(out =~= tr);
                        assert(body =~= Seq::<char>::empty());
                    }
                }
            }
            assert(body[0] == out[0][0]) by {
                if out.len() == 1 {
                } else {
                    assert(body == out[0] + seq!['\\'] + join_with(out.drop_first(), '\\'));
                }
            }
            assert(!f(out[0][0]));
        }
        assert(!starts_verbatim(r));
    }
    assert(spec_kind(r) is CurrentDirectoryRelative || spec_kind(r) is Drive || spec_kind(
        r,
    ) is DriveRelative);
    if spec_kind(r) is CurrentDirectoryRelative {
        lemma_idempotent_relative_text(r);
    } else {
        assert forall|kk: int| 0 <= kk < cs.len() implies cs[kk] != dotdot() by {
            assert(r[1] == ':');
            assert(cs[0] != dotdot()) by {
                crate::model::lemma_find_first_bounds(r, f);
                lemma_split_on_first(r, f, find_first(r, f) as int);
                assert(cs[0] == r.take(find_first(r, f) as int));
                if cs[0] == dotdot() {
                    assert(cs[0][1] == r[1]);
                }
            }
            if kk > 0 && cs[kk] == dotdot() {
                assert(cs[0] == dotdot());
            }
        }
        lemma_idempotent_reparse_text(r);
    }
}

/// Whether cleaning a UNC path collapses it once more on a second pass:
/// this happens exactly when the cleaned text keeps a trailing separator
/// with only a server name before it, so that re-parsing reads the
/// separator as the boundary of a missing share and drops it.
pub open spec fn spec_unc_collapses(s: Seq<char>) -> bool {
    let t = spec_clean(s).skip(2);
    t.len() > 0 && is_win_sep(t.last()) && split_on(t, win_sep_fn()).len() == 2
}

/// Idempotence of cleaning for a UNC path that does not collapse further.
#[verifier::rlimit(100)]
#[verifier::spinoff_prover]
proof fn lemma_idempotent_unc(s: Seq<char>)
    requires
        spec_kind(s) is Unc,
        !spec_unc_collapses(s),
    ensures
        spec_clean(spec_clean(s)) == spec_clean(s),
{
    let f = win_sep_fn();
    let k = spec_kind(s);
    let plen = spec_prefix_chars(s);
    let sub = s.skip(plen);
    let out = spec_out_comps(k, sub);
    let body = join_with(out, '\\');
    let full = spec_clean_full(s);
    let r = spec_clean(s);
    lemma_trim_shape(full);
    lemma_trimmed_len_bounds(full);
    lemma_walk_survivors_clean(split_on(sub, f), 0);
    lemma_split_on_components_free(sub, f);
    lemma_walk_survivors_free(split_on(sub, f), 0, f);
    let w = walk(split_on(sub, f), 0);
    let tr: Seq<Seq<char>> = if sub.len() > 0 && is_win_sep(sub.last()) {
        seq![Seq::<char>::empty()]
    } else {
        Seq::<Seq<char>>::empty()
    };
    assert(out == dotdots(0nat) + w.0 + tr);
    assert forall|kk: int| 0 <= kk < out.len() implies walk_clean_component(#[trigger] out[kk])
        || (kk == out.len() - 1 && out[kk].len() == 0) by {
        if kk < w.0.len() {
            assert(out[kk] == w.0[kk]);
        } else {
            assert(out[kk].len() == 0);
        }
    }
    assert forall|kk: int, j: int|
        0 <= kk < out.len() && 0 <= j < out[kk].len() implies !f(#[trigger] out[kk][j]) by {
        if kk < w.0.len() {
            assert(out[kk] == w.0[kk]);
        } else {
            assert(out[kk].len() == 0);
        }
    }
    // The prefix region: server and share, each free of separators.
    let p = s.subrange(2, plen);
    let bigt = s.skip(2);
    let p1 = find_first(p, f) as int;
    lemma_find_first_bounds(p, f);
    lemma_find_first_bounds(bigt, f);
    let p1t = find_first(bigt, f) as int;
    assert(plen - 2 == crate::kind::unc_extra_chars(bigt));
    if p1t < bigt.len() {
        lemma_find_first_bounds(bigt.skip(p1t + 1), f);
    }
    assert(forall|j: int| 0 <= j < p.len() ==> p[j] == bigt[j]);
    assert(p1 == if p1t < p.len() {
        p1t
    } else {
        p.len() as int
    }) by {
        if p1t < p.len() {
            assert(f(bigt[p1t]));
            lemma_find_first_is(p, f, p1t);
        } else {
            assert forall|j: int| 0 <= j < p.len() implies !f(p[j]) by {
                assert(p[j] == bigt[j]);
            }
            lemma_find_first_is(p, f, p.len() as int);
        }
    }
    let server = unc_server(p);
    let share = unc_share(p);
    let has_share = p1 < p.len() && share.len() > 0;
    assert forall|j: int| p1 < j < p.len() implies !f(p[j]) by {
        assert(p[j] == bigt[j]);
        assert(bigt[j] == bigt.skip(p1t + 1)[j - p1t - 1]);
    }
    let head: Seq<Seq<char>> = if has_share {
        seq![server, share]
    } else {
        seq![server]
    };
    let rcomps = head + out;
    assert forall|kk: int, j: int|
        0 <= kk < rcomps.len() && 0 <= j < rcomps[kk].len() implies !f(
        #[trigger] rcomps[kk][j]) by {
        if kk < head.len() {
            if kk == 0 {
                assert(rcomps[0] == server);
                assert(server[j] == p[j]);
            } else {
                assert(rcomps[1] == share);
                assert(share[j] == p[p1 + 1 + j]);
            }
        } else {
            assert(rcomps[kk] == out[kk - head.len()]);
        }
    }
    let pre = spec_unc_prefix_out(p);
    assert(pre == seq!['\\', '\\'] + join_with(head, '\\')) by {
        if has_share {
            assert(head[0] == server);
            assert(head.drop_first() =~= seq![share]);
            assert(join_with(seq![share], '\\') == share);
            assert(join_with(head, '\\') == server + seq!['\\'] + share);
        } else {
            assert(join_with(head, '\\') == server);
        }
    }
    assert(full =~= seq!['\\', '\\'] + join_with(rcomps, '\\')) by {
        if out.len() == 0 {
            assert(rcomps =~= head);
            assert(full == pre);
        } else {
            assert(full == pre + seq!['\\'] + body);
            if has_share {
                assert(rcomps.drop_first() =~= seq![share] + out);
                assert(rcomps.drop_first().drop_first() =~= out);
                assert(join_with(rcomps, '\\') == server + seq!['\\'] + join_with(
                    seq![share] + out,
                    '\\',
                ));
                assert(join_with(seq![share] + out, '\\') == share + seq!['\\'] + body);
            } else {
                assert(rcomps.drop_first() =~= out);
                assert(join_with(rcomps, '\\') == server + seq!['\\'] + body);
            }
        }
    }
    let y = join_with(rcomps, '\\');
    // Where the trim cut, relative to the joined components.
    let n = trimmed_len(full) as int;
    let q: int = if r == full {
        y.len() as int
    } else {
        n - 2
    };
    assert(!is_dot_space(full[1]));
    lemma_trim_keeps(full, 2);
    assert(0 <= q <= y.len());
    let t = r.skip(2);
    assert(t =~= y.take(q)) by {
        if r == full {
            assert(full.skip(2) =~= y.take(y.len() as int));
        } else {
            assert(r == full.take(n));
            assert(full.take(n).skip(2) =~= y.take(n - 2));
        }
    }
    assert(0 < q < y.len() ==> !is_dot_space(y[q - 1])) by {
        if 0 < q < y.len() && r != full {
            assert(y[q - 1] == full[n - 1]);
        }
    }
    lemma_join_no_slash(rcomps);
    assert forall|i: int| 0 <= i < t.len() implies t[i] != '/' by {
        assert(t[i] == y[i]);
    }
    lemma_split_of_take_any(rcomps, q);
    let cs = split_on(t, f);
    assert(cs == split_on(y.take(q), f));
    lemma_split_on_components_free(t, f);
    crate::model::lemma_split_on_len(t, f);
    // The taken text is the join of its own components.
    crate::model::lemma_join_split_on(t, '\\');
    assert forall|i: int| 0 <= i < t.len() implies pair_sep_fn('\\', '\\')(#[trigger] t[i]) == f(
        t[i],
    ) by {}
    crate::model::lemma_split_on_congruence_local(t, pair_sep_fn('\\', '\\'), f);
    assert forall|c: char| #[trigger] pair_sep_fn('\\', '\\')(c) == crate::model::eq_sep_fn(
        '\\',
    )(c) by {}
    lemma_split_on_congruence(t, pair_sep_fn('\\', '\\'), crate::model::eq_sep_fn('\\'));
    assert(join_with(cs, '\\') == t);
    // The kind survives and the second trim changes nothing.
    lemma_kind_stable(s);
    assert(spec_kind(r) == k);
    lemma_trim_idempotent(full);
    assert(spec_trim_full(r) == r);
    // Interior components of the cleaned text are never empty.
    assert forall|kk: int| 1 <= kk < cs.len() - 1 implies cs[kk].len() > 0 by {
        assert(cs[kk] == rcomps[kk]);
        if has_share && kk == 1 {
        } else {
            assert(rcomps[kk] == out[kk - head.len()]);
            assert(kk - head.len() < out.len() - 1 || cs.len() - 1 < rcomps.len());
            if out[kk - head.len()].len() == 0 {
                assert(kk - head.len() == out.len() - 1);
                assert(kk == rcomps.len() - 1);
                assert(cs.len() - 1 <= rcomps.len() - 1);
            }
        }
    }
    assert forall|kk: int| 1 <= kk < cs.len() - 1 implies cs[kk].len() > 0 by {
        assert(cs[kk] == rcomps[kk]);
        if has_share && kk == 1 {
        } else {
            assert(rcomps[kk] == out[kk - head.len()]);
            if out[kk - head.len()].len() == 0 {
                assert(kk - head.len() == out.len() - 1);
                assert(kk == rcomps.len() - 1);
                assert(cs.len() <= rcomps.len());
            }
        }
    }
    assert forall|kk: int|
        2 <= kk < cs.len() implies walk_clean_component(#[trigger] cs[kk]) || (kk == cs.len() - 1
        && cs[kk].len() == 0) by {
        if kk < cs.len() - 1 {
            assert(cs[kk] == rcomps[kk]);
            assert(rcomps[kk] == out[kk - head.len()]);
            if out[kk - head.len()].len() == 0 {
                assert(kk == rcomps.len() - 1);
                assert(cs.len() <= rcomps.len());
            }
        } else {
            if cs.last() == rcomps[cs.len() - 1] {
                assert(rcomps[cs.len() - 1] == out[cs.len() - 1 - head.len()]);
            } else if cs.last().len() == 0 {
            } else {
                assert(!is_dot_space(cs.last().last()));
                let c = cs.last();
                assert(c.len() > 0 && c != dot() && c != dotdot() && strip_one_dot(c) == c) by {
                    if c == dot() || c == dotdot() {
                        assert(c.last() == '.');
                    }
                }
            }
        }
    }
    assert(!(cs.len() == 2 && cs[1].len() == 0)) by {
        if cs.len() == 2 && cs[1].len() == 0 {
            crate::model::lemma_split_on_last(t, f);
            assert(t.len() > 0);
            assert(is_win_sep(t.last()));
        }
    }
    lemma_idempotent_unc_text(r);
}

/// A cleaned UNC text of the right shape cleans to itself: the components
/// past the server and share are clean, interior components are non-empty,
/// and the text does not end in a lone share separator.
#[verifier::rlimit(100)]
#[verifier::spinoff_prover]
proof fn lemma_idempotent_unc_text(r: Seq<char>)
    requires
        spec_kind(r) is Unc,
        spec_trim_full(r) == r,
        forall|i: int| 0 <= i < r.len() ==> r[i] != '/',
        forall|kk: int|
            1 <= kk < split_on(r.skip(2), win_sep_fn()).len() - 1 ==> split_on(
                r.skip(2),
                win_sep_fn(),
            )[kk].len() > 0,
        forall|kk: int|
            2 <= kk < split_on(r.skip(2), win_sep_fn()).len() ==> walk_clean_component(
                #[trigger] split_on(r.skip(2), win_sep_fn())[kk],
            ) || (kk == split_on(r.skip(2), win_sep_fn()).len() - 1 && split_on(
                r.skip(2),
                win_sep_fn(),
            )[kk].len() == 0),
        !(split_on(r.skip(2), win_sep_fn()).len() == 2 && split_on(r.skip(2), win_sep_fn())[1].len()
            == 0),
    ensures
        spec_clean(r) == r,
{
    let f = win_sep_fn();
    let k = spec_kind(r);
    let t = r.skip(2);
    let cs = split_on(t, f);
    lemma_split_on_components_free(t, f);
    crate::model::lemma_split_on_len(t, f);
    crate::model::lemma_join_split_on(t, '\\');
    assert forall|i: int| 0 <= i < t.len() implies pair_sep_fn('\\', '\\')(#[trigger] t[i]) == f(
        t[i],
    ) by {
        assert(t[i] == r[2 + i]);
    }
    crate::model::lemma_split_on_congruence_local(t, pair_sep_fn('\\', '\\'), f);
    assert forall|c: char| #[trigger] pair_sep_fn('\\', '\\')(c) == crate::model::eq_sep_fn(
        '\\',
    )(c) by {}
    lemma_split_on_congruence(t, pair_sep_fn('\\', '\\'), crate::model::eq_sep_fn('\\'));
    assert(join_with(cs, '\\') == t);
    let e1 = cs[0].len() as int;
    if cs.len() == 1 {
        assert(forall|j: int| 0 <= j < t.len() ==> !f(t[j]));
        lemma_find_first_is(t, f, t.len() as int);
        assert(crate::kind::unc_extra_chars(t) == t.len());
        assert(spec_prefix_chars(r) == r.len());
        let p2 = r.subrange(2, r.len() as int);
        assert(p2 =~= t);
        assert(find_first(p2, f) == p2.len());
        assert(unc_server(p2) =~= t);
        assert(!unc_has_share(p2));
        let sub2 = r.skip(r.len() as int);
        assert(sub2 =~= Seq::<char>::empty());
        lemma_split_on_first(sub2, f, 0);
        assert(split_on(sub2, f) == seq![sub2]);
        assert(walk(split_on(sub2, f), 0).0 =~= Seq::<Seq<char>>::empty() && walk(
            split_on(sub2, f),
            0,
        ).1 == 0) by {
            reveal_with_fuel(walk, 3);
        }
        assert(spec_out_comps(k, sub2) =~= Seq::<Seq<char>>::empty());
        assert(spec_clean_full(r) == spec_unc_prefix_out(p2));
        assert(spec_clean_full(r) =~= r);
        assert(spec_clean(r) == spec_trim_full(r));
    } else {
        // The first separator stands after the first component.
        assert(t == cs[0] + seq!['\\'] + join_with(cs.drop_first(), '\\')) by {
            assert(join_with(cs, '\\') == cs[0] + seq!['\\'] + join_with(cs.drop_first(), '\\'));
        }
        assert forall|j: int| 0 <= j < e1 implies !f(t[j]) by {
            assert(t[j] == cs[0][j]);
        }
        assert(t[e1] == '\\');
        lemma_find_first_is(t, f, e1);
        let t2 = t.skip(e1 + 1);
        assert(t2 =~= join_with(cs.drop_first(), '\\'));
        if cs.len() == 2 {
            assert(t2 =~= cs[1]);
            assert(forall|j: int| 0 <= j < t2.len() ==> !f(t2[j]));
            lemma_find_first_is(t2, f, t2.len() as int);
            assert(crate::kind::unc_extra_chars(t) == t.len());
            assert(spec_prefix_chars(r) == r.len());
            let p2 = r.subrange(2, r.len() as int);
            assert(p2 =~= t);
            assert(find_first(p2, f) == e1) by {
                assert(forall|j: int| 0 <= j < e1 ==> !f(p2[j]));
                assert(f(p2[e1]));
                lemma_find_first_is(p2, f, e1);
            }
            assert(unc_server(p2) =~= cs[0]);
            assert(unc_has_share(p2));
            assert(unc_share(p2) =~= cs[1]);
            assert(cs[1].len() > 0) by {
                if cs[1].len() == 0 {
                    crate::model::lemma_split_on_last(t, f);
                    assert(is_win_sep(t.last()));
                }
            }
            assert(spec_unc_prefix_out(p2) =~= r);
            let sub2 = r.skip(r.len() as int);
            assert(sub2 =~= Seq::<char>::empty());
            lemma_split_on_first(sub2, f, 0);
            assert(walk(split_on(sub2, f), 0).0 =~= Seq::<Seq<char>>::empty() && walk(
                split_on(sub2, f),
                0,
            ).1 == 0) by {
                reveal_with_fuel(walk, 3);
            }
            assert(spec_out_comps(k, sub2) =~= Seq::<Seq<char>>::empty());
            assert(spec_clean_full(r) =~= r);
            assert(spec_clean(r) == spec_trim_full(r));
        } else {
            // At least three components: the second separator closes the
            // share and everything after it is the subpath.
            let e2 = e1 + 1 + cs[1].len() as int;
            assert(t2 == cs[1] + seq!['\\'] + join_with(cs.drop_first().drop_first(), '\\')) by {
                assert(cs.drop_first().len() >= 2);
                assert(cs.drop_first()[0] == cs[1]);
            }
            assert forall|j: int| 0 <= j < cs[1].len() implies !f(t2[j]) by {
                assert(t2[j] == cs[1][j]);
            }
            assert(t2[cs[1].len() as int] == '\\');
            lemma_find_first_is(t2, f, cs[1].len() as int);
            assert(crate::kind::unc_extra_chars(t) == e2);
            assert(e2 < t.len());
            assert(spec_prefix_chars(r) == 2 + e2);
            let p2 = r.subrange(2, 2 + e2);
            assert(p2 =~= t.take(e2));
            assert(find_first(p2, f) == e1) by {
                assert forall|j: int| 0 <= j < e1 implies !f(p2[j]) by {
                    assert(p2[j] == t[j]);
                }
                assert(p2[e1] == t[e1]);
                lemma_find_first_is(p2, f, e1);
            }
            assert(unc_server(p2) =~= cs[0]);
            assert(unc_has_share(p2));
            assert(unc_share(p2) =~= cs[1]);
            assert(cs[1].len() > 0);
            assert(spec_unc_prefix_out(p2) =~= seq!['\\', '\\'] + cs[0] + seq!['\\'] + cs[1]);
            let sub2 = r.skip(2 + e2);
            assert(sub2 =~= t.skip(e2));
            let rest2 = cs.skip(2);
            assert(sub2 =~= seq!['\\'] + join_with(rest2, '\\')) by {
                assert(t2.skip(cs[1].len() as int + 1) =~= join_with(
                    cs.drop_first().drop_first(),
                    '\\',
                ));
                assert(cs.drop_first().drop_first() =~= rest2);
            }
            assert(f(sub2[0]));
            lemma_split_on_first(sub2, f, 0);
            assert(sub2.take(0) =~= Seq::<char>::empty());
            assert(sub2.skip(1) =~= join_with(rest2, '\\'));
            crate::model::lemma_split_on_len(join_with(rest2, '\\'), f);
            assert(rest2.len() >= 1);
            assert forall|kk2: int, j: int|
                0 <= kk2 < rest2.len() && 0 <= j < rest2[kk2].len() implies !f(
                #[trigger] rest2[kk2][j]) by {
                assert(rest2[kk2] == cs[kk2 + 2]);
            }
            lemma_split_on_join(rest2, '\\', f);
            assert(split_on(sub2, f) == seq![Seq::<char>::empty()] + rest2);
            // Every subpath component is clean, except a trailing empty.
            assert forall|kk2: int| 0 <= kk2 < rest2.len() implies walk_clean_component(
                #[trigger] rest2[kk2]) || (kk2 == rest2.len() - 1 && rest2[kk2].len() == 0) by {
                assert(rest2[kk2] == cs[kk2 + 2]);
            }
            lemma_walk_cons(Seq::<char>::empty(), rest2, 0);
            lemma_walk_identity_trail(rest2);
            let w2 = walk(split_on(sub2, f), 0);
            assert(w2.1 == 0);
            let tr2: Seq<Seq<char>> = if sub2.len() > 0 && is_win_sep(sub2.last()) {
                seq![Seq::<char>::empty()]
            } else {
                Seq::<Seq<char>>::empty()
            };
            assert(spec_out_comps(k, sub2) == dotdots(0nat) + w2.0 + tr2);
            assert(spec_out_comps(k, sub2) =~= rest2) by {
                crate::model::lemma_split_on_last(t, f);
                if rest2.last().len() == 0 {
                    assert(is_win_sep(t.last()));
                    assert(sub2.last() == t.last());
                    assert(w2.0 == rest2.drop_last());
                    assert(rest2.last() =~= Seq::<char>::empty());
                    assert(dotdots(0nat) + w2.0 + tr2 =~= rest2);
                } else {
                    assert(!is_win_sep(t.last()));
                    assert(sub2.last() == t.last());
                    assert(w2.0 == rest2);
                    assert(dotdots(0nat) + w2.0 + tr2 =~= rest2);
                }
            }
            assert(spec_out_comps(k, sub2).len() > 0);
            assert(spec_clean_full(r) == spec_unc_prefix_out(p2) + seq!['\\'] + join_with(
                spec_out_comps(k, sub2),
                '\\',
            ));
            assert(join_with(spec_out_comps(k, sub2), '\\') == join_with(rest2, '\\'));
            assert(spec_clean_full(r) =~= r);
            assert(spec_clean(r) == spec_trim_full(r));
        }
    }}

/// Idempotence of cleaning: `clean(clean(p)) == clean(p)`, for every path
/// except a UNC path whose cleaned form still ends in a lone share
/// separator; re-parsing such a text reads that separator as the boundary
/// of a missing share and drops it once more.
#[verifier::rlimit(100)]
#[verifier::spinoff_prover]
pub proof fn lemma_clean_idempotent(s: Seq<char>)
    requires
        !(spec_kind(s) is Unc && spec_unc_collapses(s)),
    ensures
        spec_clean(spec_clean(s)) == spec_clean(s),
{
    let f = win_sep_fn();
    let k = spec_kind(s);
    if k is Verbatim {
    } else if k is Unc {
        lemma_idempotent_unc(s);
    } else {
        let plen = spec_prefix_chars(s);
        let sub = s.skip(plen);
        let out = spec_out_comps(k, sub);
        let body = join_with(out, '\\');
        let pre = spec_normal_prefix(s);
        let full = spec_clean_full(s);
        let r = spec_clean(s);
        assert(full == pre + body);
        lemma_trim_shape(full);
        lemma_trimmed_len_bounds(full);
        lemma_walk_survivors_clean(split_on(sub, f), 0);
        lemma_split_on_components_free(sub, f);
        lemma_walk_survivors_free(split_on(sub, f), 0, f);
        let w = walk(split_on(sub, f), 0);
        let lead = if !spec_is_absolute(k) && !(k is RootRelative) {
            w.1
        } else {
            0
        };
        let tr: Seq<Seq<char>> = if sub.len() > 0 && is_win_sep(sub.last()) {
            seq![Seq::<char>::empty()]
        } else {
            Seq::<Seq<char>>::empty()
        };
        assert(out == dotdots(lead) + w.0 + tr);
        assert forall|kk: int| 0 <= kk < out.len() implies out_comp_ok(out, kk) by {
            if kk < lead {
                assert(out[kk] == dotdot());
            } else if kk - lead < w.0.len() {
                assert(out[kk] == w.0[kk - lead]);
            } else {
                assert(kk == out.len() - 1 && out[kk].len() == 0);
            }
        }
        assert forall|kk: int, j: int|
            0 <= kk < out.len() && 0 <= j < out[kk].len() implies !f(#[trigger] out[kk][j]) by {
            if kk < lead {
                assert(out[kk] == dotdot());
            } else if kk - lead < w.0.len() {
                assert(out[kk] == w.0[kk - lead]);
            } else {
                assert(out[kk].len() == 0);
            }
        }
        assert forall|kk: int| 0 <= kk < out.len() implies ((out[kk] == dotdot()) == (kk
            < lead)) by {
            if kk < lead {
                assert(out[kk] == dotdots(lead)[kk]);
            } else if kk - lead < w.0.len() {
                assert(out[kk] == w.0[kk - lead]);
                assert(walk_clean_component(out[kk]));
            } else {
                assert(out[kk].len() == 0);
            }
        }
        if k is CurrentDirectoryRelative {
            lemma_idempotent_relative(s);
        } else if k is Device && s[2] == '?' {
            // The device marker is promoted to a verbatim prefix, which the
            // second cleaning leaves alone.
            assert(full[0] == '\\' && full[1] == '\\' && full[2] == '?' && full[3] == '\\');
            lemma_trim_keeps(full, 4);
            assert(starts_verbatim(r));
            assert(spec_kind(r) is Verbatim);
        } else {
            // The kind survives the first cleaning.
            if k is Device {
                lemma_kind_stable(s);
            } else {
                lemma_kind_stable(s);
            }
            assert(spec_kind(r) == k);
            let plen2 = crate::kind::kind_prefix_chars(k);
            assert(spec_prefix_chars(r) == plen2);
            // The normalized prefix occupies exactly the first plen2
            // characters of the full string, ends in a character that
            // trimming keeps, and holds no slash.
            assert(pre.len() == plen2);
            assert(!is_dot_space(full[plen2 - 1])) by {
                if k is Drive || k is Device || k is RootRelative {
                    assert(full[plen2 - 1] == pre[plen2 - 1]);
                    assert(pre[plen2 - 1] == '\\');
                } else {
                    assert(full[plen2 - 1] == pre[plen2 - 1]);
                    assert(pre[plen2 - 1] == ':');
                }
            }
            lemma_trim_keeps(full, plen2);
            // No slash anywhere in the full string.
            assert forall|kk: int, j: int|
                0 <= kk < out.len() && 0 <= j < out[kk].len() implies out[kk][j] != '/' by {
                if kk < lead {
                    assert(out[kk] == dotdot());
                } else if kk - lead < w.0.len() {
                    assert(out[kk] == w.0[kk - lead]);
                    assert(!f(w.0[kk - lead][j]));
                } else {
                    assert(out[kk].len() == 0);
                }
            }
            lemma_join_no_slash(out);
            assert forall|i: int| 0 <= i < full.len() implies full[i] != '/' by {
                if i < plen2 {
                    assert(full[i] == pre[i]);
                    if k is Drive {
                        assert(pre == s.take(2) + seq!['\\']);
                    } else if k is DriveRelative {
                        assert(pre == s.take(2));
                    }
                } else {
                    assert(full[i] == body[i - plen2]);
                }
            }
            // Where the first cleaning's trim cut the body.
            let n = trimmed_len(full) as int;
            let q: int = if r == full {
                body.len() as int
            } else {
                n - plen2
            };
            assert(0 <= q <= body.len());
            assert(r.skip(plen2) =~= body.take(q)) by {
                if r == full {
                    assert(full.skip(plen2) =~= body.take(body.len() as int));
                } else {
                    assert(r == full.take(n));
                    assert(full.take(n).skip(plen2) =~= body.take(n - plen2));
                }
            }
            let sub2 = r.skip(plen2);
            assert(0 < q < body.len() ==> !is_dot_space(body[q - 1])) by {
                if 0 < q < body.len() && r != full {
                    assert(body[q - 1] == full[n - 1]);
                }
                if 0 < q < body.len() && r == full {
                    assert(q == body.len());
                }
            }
            lemma_cut_and_rebuild(out, lead as int, q);
            let cs2 = split_on(sub2, f);
            assert(cs2 == split_on(body.take(q), f));
            let w2 = walk(cs2, 0);
            assert(w2.1 <= lead);
            if spec_is_absolute(k) || k is RootRelative {
                assert(lead == 0);
                assert(w2.1 == 0);
            }
            let lead2 = if !spec_is_absolute(k) && !(k is RootRelative) {
                w2.1
            } else {
                0
            };
            assert(lead2 == w2.1);
            let tr2: Seq<Seq<char>> = if sub2.len() > 0 && is_win_sep(sub2.last()) {
                seq![Seq::<char>::empty()]
            } else {
                Seq::<Seq<char>>::empty()
            };
            assert(spec_out_comps(k, sub2) == dotdots(lead2 as nat) + w2.0 + tr2);
            assert(join_with(spec_out_comps(k, sub2), '\\') == sub2);
            // The normalized prefix of the cleaned path is the same prefix.
            assert(spec_normal_prefix(r) =~= pre) by {
                if k is Drive {
                    assert(r[0] == full[0] && r[1] == full[1]);
                    assert(r.take(2) =~= s.take(2));
                } else if k is DriveRelative {
                    assert(r[0] == full[0] && r[1] == full[1]);
                    assert(r.take(2) =~= s.take(2));
                } else if k is Device {
                    assert(r[2] == full[2]);
                    assert(full[2] == s[2]);
                }
            }
            assert(spec_clean_full(r) == pre + sub2);
            assert(pre + sub2 =~= r) by {
                assert(forall|i: int| 0 <= i < plen2 ==> r[i] == full[i] && full[i] == pre[i]);
            }
            lemma_trim_idempotent(full);
            assert(spec_clean(r) == spec_trim_full(r));
            assert(spec_trim_full(r) == r);
        }
    }
}

/// Parent-reference accounting: prefixing one more `..` component to a
/// current-directory-relative path raises the count of unresolved leading
/// `..` components of the cleaned result by exactly one. A `..` never
/// resolves past the unknown root of a relative path.
pub proof fn lemma_parent_accounting(s: Seq<char>)
    requires
        spec_kind(s) is CurrentDirectoryRelative,
    ensures
        leading_dotdots(spec_clean(seq!['.', '.', '\\'] + s)) == leading_dotdots(spec_clean(s))
            + 1,
{
    let f = win_sep_fn();
    let t = seq!['.', '.', '\\'] + s;
    assert(t[0] == '.' && t[1] == '.' && t[2] == '\\');
    assert(spec_kind(t) is CurrentDirectoryRelative);
    assert(spec_prefix_chars(t) == 0);
    assert(spec_prefix_chars(s) == 0);
    assert(t.skip(0) =~= t);
    assert(s.skip(0) =~= s);
    lemma_split_on_first(t, f, 2);
    assert(t.take(2) =~= dotdot());
    assert(t.skip(3) =~= s);
    assert(split_on(t, f) == seq![dotdot()] + split_on(s, f));
    lemma_walk_cons(dotdot(), split_on(s, f), 0);
    let w = walk(split_on(s, f), 0);
    let wt = walk(split_on(t, f), 0);
    assert(wt.0 == w.0 && wt.1 == w.1 + 1);
    lemma_walk_survivors_clean(split_on(s, f), 0);
    lemma_split_on_components_free(s, f);
    lemma_walk_survivors_free(split_on(s, f), 0, f);
    let tr_s: Seq<Seq<char>> = if s.len() > 0 && is_win_sep(s.last()) {
        seq![Seq::<char>::empty()]
    } else {
        Seq::<Seq<char>>::empty()
    };
    let tr_t: Seq<Seq<char>> = if t.len() > 0 && is_win_sep(t.last()) {
        seq![Seq::<char>::empty()]
    } else {
        Seq::<Seq<char>>::empty()
    };
    assert(spec_clean_full(s) =~= join_with(dotdots(w.1) + w.0 + tr_s, '\\'));
    assert(spec_clean_full(t) =~= join_with(dotdots((w.1 + 1) as nat) + w.0 + tr_t, '\\'));
    if s.len() == 0 {
        assert(split_on(s, f) =~= seq![Seq::<char>::empty()]) by {
            lemma_split_on_first(s, f, 0);
            assert(s =~= Seq::<char>::empty());
        }
        assert(w.0 =~= Seq::<Seq<char>>::empty() && w.1 == 0) by {
            reveal_with_fuel(walk, 3);
        }
        assert(tr_s =~= Seq::<Seq<char>>::empty());
        assert(tr_t =~= seq![Seq::<char>::empty()]);
        lemma_lead_of_out(0, w.0, tr_s);
        lemma_lead_of_out(1, w.0, tr_t);
    } else {
        assert(t.last() == s.last());
        assert(tr_t == tr_s);
        lemma_lead_of_out(w.1, w.0, tr_s);
        lemma_lead_of_out((w.1 + 1) as nat, w.0, tr_t);
    }
}

/// Append the component list of the cleaned subpath to `out`, joined by `\`.
fn append_out_comps(out: &mut String, survivors: &Vec<&str>, lead: usize, trail: bool)
    ensures
        final(out)@ == old(out)@ + join_with(
            dotdots(lead as nat) + str_views(survivors@) + (if trail {
                seq![Seq::<char>::empty()]
            } else {
                Seq::<Seq<char>>::empty()
            }),
            '\\',
        ),
{
    proof {
        reveal_strlit("\\");
        reveal_strlit("..");
    }
    let ghost comps = dotdots(lead as nat) + str_views(survivors@) + (if trail {
        seq![Seq::<char>::empty()]
    } else {
        Seq::<Seq<char>>::empty()
    });
    let ghost base = out@;
    let ghost mut cnt: int = 0;
    let mut first: bool = true;
    let mut i: usize = 0;
    proof {
        assert(comps.take(0) =~= Seq::<Seq<char>>::empty());
    }
    while i < lead
        invariant
            i <= lead,
            cnt == i,
            first == (cnt == 0),
            cnt <= comps.len(),
            comps == dotdots(lead as nat) + str_views(survivors@) + (if trail {
                seq![Seq::<char>::empty()]
            } else {
                Seq::<Seq<char>>::empty()
            }),
            out@ == base + join_with(comps.take(cnt), '\\'),
            "\\"@ == seq!['\\'],
            ".."@ == dotdot(),
        decreases lead - i,
    {
        proof {
            assert(comps[cnt] == dotdots(lead as nat)[cnt]);
            assert(comps.take(cnt + 1) =~= comps.take(cnt).push(comps[cnt]));
            lemma_join_push(comps.take(cnt), '\\', comps[cnt]);
        }
        if first {
            out.append("..");
            first = false;
        } else {
            out.append("\\");
            out.append("..");
        }
        proof {
            cnt = cnt + 1;
        }
        i += 1;
    }
    let mut j: usize = 0;
    while j < survivors.len()
        invariant
            j <= survivors@.len(),
            cnt == lead + j,
            first == (cnt == 0),
            cnt <= comps.len(),
            comps == dotdots(lead as nat) + str_views(survivors@) + (if trail {
                seq![Seq::<char>::empty()]
            } else {
                Seq::<Seq<char>>::empty()
            }),
            out@ == base + join_with(comps.take(cnt), '\\'),
            "\\"@ == seq!['\\'],
        decreases survivors@.len() - j,
    {
        proof {
            assert(comps[cnt] == str_views(survivors@)[j as int]);
            assert(comps.take(cnt + 1) =~= comps.take(cnt).push(comps[cnt]));
            lemma_join_push(comps.take(cnt), '\\', comps[cnt]);
        }
        if first {
            out.append(survivors[j]);
            first = false;
        } else {
            out.append("\\");
            out.append(survivors[j]);
        }
        proof {
            cnt = cnt + 1;
        }
        j += 1;
    }
    if trail {
        proof {
            assert(comps[cnt] =~= Seq::<char>::empty());
            assert(comps.take(cnt + 1) =~= comps.take(cnt).push(comps[cnt]));
            lemma_join_push(comps.take(cnt), '\\', comps[cnt]);
        }
        if !first {
            out.append("\\");
        }
        proof {
            cnt = cnt + 1;
        }
    }
    proof {
        assert(comps.take(cnt) =~= comps);
    }
}

/// Trim trailing `.` and ` ` characters from the whole string, preserving a
/// trailing bare `.` or `..` component.
fn trim_full_string(s: String) -> (r: String)
    ensures
        r@ == spec_trim_full(s@),
{
    let n = trimmed_len_str(s.as_str());
    let len = s.as_str().unicode_len();
    if n == 0 {
        return s;
    }
    let suffix_len = len - n;
    let dot_suffix = (suffix_len == 1 && s.as_str().get_char(n) == '.') || (suffix_len == 2
        && s.as_str().get_char(n) == '.' && s.as_str().get_char(n + 1) == '.');
    proof {
        let suf = s@.skip(n as int);
        assert(suf.len() == len - n);
        if suffix_len == 1 && s@[n as int] == '.' {
            assert(suf =~= crate::model::dot());
        }
        if suffix_len == 2 && s@[n as int] == '.' && s@[n as int + 1] == '.' {
            assert(suf =~= dotdot());
        }
        if suf == crate::model::dot() {
            assert(s@[n as int] == suf[0]);
        }
        if suf == dotdot() {
            assert(s@[n as int] == suf[0] && s@[n as int + 1] == suf[1]);
        }
        assert(dot_suffix == (suf == crate::model::dot() || suf == dotdot()));
    }
    if dot_suffix && (s.as_str().get_char(n - 1) == '\\' || s.as_str().get_char(n - 1) == '/') {
        s
    } else {
        let r = String::from_str(s.as_str().substring_char(0, n));
        proof {
            assert(r@ =~= s@.take(n as int));
        }
        r
    }
}

/// Lexically clean a path: classify it, resolve `.` and `..` components,
/// repair the prefix, and trim trailing dots and spaces. Verbatim paths are
/// opaque to cleaning and come back unchanged. The function is total and
/// touches no external state.
pub fn clean(path: &str) -> (r: String)
    ensures
        r@ == spec_clean(path@),
{
    let parsed = ParsedUtf8Path::from_utf8(path);
    let kind = parsed.kind();
    if matches!(kind, WinPathKind::Verbatim) {
        return String::from_str(path);
    }
    let (prefix, sub) = parsed.parts();
    let comps = split_str_on(sub, '\\', '/');
    proof {
        assert forall|c: char| #[trigger] pair_sep_fn('\\', '/')(c) == win_sep_fn()(c) by {}
        lemma_split_on_congruence(sub@, pair_sep_fn('\\', '/'), win_sep_fn());
    }
    let nc = comps.len();
    proof {
        assert(comps@.len() == nc);
    }
    let (survivors, residual) = walk_strs(&comps, 0);
    let lead: usize = if kind.is_absolute() || matches!(kind, WinPathKind::RootRelative) {
        0
    } else {
        residual
    };
    let sub_len = sub.unicode_len();
    let trail = sub_len > 0 && crate::kind::win_sep(sub.get_char(sub_len - 1));
    let ghost outg = spec_out_comps(kind, sub@);
    proof {
        assert(outg == dotdots(lead as nat) + str_views(survivors@) + (if trail {
            seq![Seq::<char>::empty()]
        } else {
            Seq::<Seq<char>>::empty()
        }));
    }
    let mut out: String;
    match kind {
        WinPathKind::Unc => {
            proof {
                reveal_strlit("\\\\");
                reveal_strlit("\\");
            }
            let plen = prefix.unicode_len();
            proof {
                lemma_find_first_bounds(path@.skip(2), win_sep_fn());
                assert(spec_prefix_chars(path@) >= 2);
            }
            let p = prefix.substring_char(2, plen);
            let ghost pg = path@.subrange(2, spec_prefix_chars(path@));
            proof {
                assert(p@ =~= pg);
            }
            let p_len = p.unicode_len();
            let p1 = crate::kind::find_win_sep(p, 0);
            proof {
                lemma_find_first_is(p@, win_sep_fn(), p1 as int);
            }
            let server = p.substring_char(0, p1);
            out = String::from_str("\\\\");
            out.append(server);
            proof {
                assert(server@ =~= unc_server(pg));
            }
            if p1 < p_len {
                let share = p.substring_char(p1 + 1, p_len);
                proof {
                    assert(share@ =~= unc_share(pg));
                }
                if share.unicode_len() > 0 {
                    out.append("\\");
                    out.append(share);
                }
            }
            proof {
                assert(out@ =~= spec_unc_prefix_out(pg));
            }
            let has_out = lead > 0 || survivors.len() > 0 || trail;
            proof {
                assert(has_out == (outg.len() > 0));
            }
            if has_out {
                out.append("\\");
            }
        },
        _ => {
            let nk = parsed.normalized_str_kind();
            out = String::from_str(nk.as_str());
        },
    }
    append_out_comps(&mut out, &survivors, lead, trail);
    proof {
        assert(out@ == spec_clean_full(path@));
    }
    let r = trim_full_string(out);
    r
}

} // verus!

