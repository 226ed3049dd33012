//! Absolute directory paths as sequences of components, and the rules the
//! game uses to move between directories.

use vstd::prelude::*;
use vstd::string::*;
use crate::text::{split_on, split_str, lemma_split_on_nonempty};

verus! {

/// An absolute path, held as its components below the root directory
/// (`/a/b` is `["a", "b"]`, `/` is `[]`).
pub struct AbsPath {
    pub parts: Vec<String>,
}

impl View for AbsPath {
    type V = Seq<Seq<char>>;

    open spec fn view(&self) -> Seq<Seq<char>> {
        self.parts.deep_view()
    }
}

pub open spec fn dot() -> Seq<char> {
    seq!['.']
}

pub open spec fn dot_dot() -> Seq<char> {
    seq!['.', '.']
}

/// A piece of a path string that names a component: neither empty nor `.`.
pub open spec fn is_named_piece(p: Seq<char>) -> bool {
    p.len() > 0 && p != dot()
}

/// The pieces that name components, in order.
pub open spec fn named_pieces(pieces: Seq<Seq<char>>) -> Seq<Seq<char>>
    decreases pieces.len(),
{
    if pieces.len() == 0 {
        Seq::empty()
    } else {
        let prev = named_pieces(pieces.drop_last());
        if is_named_piece(pieces.last()) {
            prev.push(pieces.last())
        } else {
            prev
        }
    }
}

/// The components of a path string: its `/`-separated pieces without empty
/// ones and without `.` (a path string is never empty of meaning here: the
/// root and a leading `.` are told apart by the callers).
pub open spec fn components_of(s: Seq<char>) -> Seq<Seq<char>> {
    named_pieces(split_on(s, '/'))
}

pub open spec fn is_absolute_str(s: Seq<char>) -> bool {
    s.len() > 0 && s[0] == '/'
}

/// `base` joined with the path string `s`: an absolute `s` replaces `base`,
/// a relative one is appended component by component.
pub open spec fn joined(base: Seq<Seq<char>>, s: Seq<char>) -> Seq<Seq<char>> {
    if is_absolute_str(s) {
        components_of(s)
    } else {
        base + components_of(s)
    }
}

/// The directory reached from `base` by following `pieces` one by one:
/// `.` and empty pieces stay, `..` goes up (not above the root), any other
/// piece goes down into the directory of that name.
pub open spec fn walked(base: Seq<Seq<char>>, pieces: Seq<Seq<char>>) -> Seq<Seq<char>>
    decreases pieces.len(),
{
    if pieces.len() == 0 {
        base
    } else {
        let p = walked(base, pieces.drop_last());
        let q = pieces.last();
        if q == dot_dot() {
            if p.len() > 0 {
                p.drop_last()
            } else {
                p
            }
        } else if is_named_piece(q) {
            p.push(q)
        } else {
            p
        }
    }
}

/// `p` is `q` or one of its ancestors.
pub open spec fn is_prefix_of(p: Seq<Seq<char>>, q: Seq<Seq<char>>) -> bool {
    p.len() <= q.len() && q.take(p.len() as int) == p
}

/// The components of `p` are the last components of `q`.
pub open spec fn is_suffix_of(p: Seq<Seq<char>>, q: Seq<Seq<char>>) -> bool {
    p.len() <= q.len() && q.skip(q.len() - p.len()) == p
}

/// Whether `p` is `.` or starts with `./`: a relative path whose first
/// component is the current directory.
pub open spec fn starts_with_cur_dir(s: Seq<char>) -> bool {
    s.len() > 0 && s[0] == '.' && (s.len() == 1 || s[1] == '/')
}

/// Whether the absolute path `path` ends with the path string `child`,
/// comparing whole components: an absolute `child` must be all of `path`,
/// and a `child` that starts with the current directory matches no
/// absolute path.
pub open spec fn path_ends_with(path: Seq<Seq<char>>, child: Seq<char>) -> bool {
    if is_absolute_str(child) {
        path == components_of(child)
    } else if starts_with_cur_dir(child) {
        false
    } else {
        is_suffix_of(components_of(child), path)
    }
}

/// Whether `p` is `.`.
fn is_dot(p: &String) -> (b: bool)
    ensures
        b == (p@ == dot()),
{
    let s = p.as_str();
    if s.unicode_len() == 1 {
        let c = s.get_char(0);
        proof {
            if c == '.' {
                assert(s@ =~= dot());
            }
        }
        c == '.'
    } else {
        false
    }
}

/// Whether `p` is `..`.
fn is_dot_dot(p: &String) -> (b: bool)
    ensures
        b == (p@ == dot_dot()),
{
    let s = p.as_str();
    if s.unicode_len() == 2 {
        let c0 = s.get_char(0);
        let c1 = s.get_char(1);
        proof {
            if c0 == '.' && c1 == '.' {
                assert(s@ =~= dot_dot());
            }
        }
        c0 == '.' && c1 == '.'
    } else {
        false
    }
}

/// Whether `p` names a component.
fn named_piece(p: &String) -> (b: bool)
    ensures
        b == is_named_piece(p@),
{
    p.as_str().unicode_len() > 0 && !is_dot(p)
}

/// Whether the string starts with `/`.
pub fn is_absolute(s: &str) -> (b: bool)
    ensures
        b == is_absolute_str(s@),
{
    s.unicode_len() > 0 && s.get_char(0) == '/'
}

/// Whether the string is `.` or starts with `./`.
fn cur_dir_first(s: &str) -> (b: bool)
    ensures
        b == starts_with_cur_dir(s@),
{
    let n = s.unicode_len();
    n > 0 && s.get_char(0) == '.' && (n == 1 || s.get_char(1) == '/')
}

/// Equality of two strings.
fn same_text(a: &String, b: &String) -> (r: bool)
    ensures
        r == (a@ == b@),
{
    a.eq(b)
}

impl AbsPath {
    /// The root directory.
    pub fn root() -> (p: AbsPath)
        ensures
            p@ == Seq::<Seq<char>>::empty(),
    {
        let p = AbsPath { parts: Vec::new() };
        proof {
            assert(p@ =~= Seq::<Seq<char>>::empty());
        }
        p
    }

    /// A path with the same components.
    pub fn duplicate(&self) -> (p: AbsPath)
        ensures
            p@ == self@,
    {
        let mut parts: Vec<String> = Vec::new();
        let n = self.parts.len();
        let mut i: usize = 0;
        while i < n
            invariant
                n == self.parts.len(),
                i <= n,
                parts.deep_view() == self@.take(i as int),
            decreases n - i,
        {
            let ghost before = parts.deep_view();
            parts.push(self.parts[i].clone());
            proof {
                assert(parts.deep_view() =~= before.push(self@[i as int]));
                assert(self@.take(i as int + 1) =~= self@.take(i as int).push(self@[i as int]));
            }
            i = i + 1;
        }
        proof {
            assert(self@.take(n as int) =~= self@);
        }
        AbsPath { parts }
    }

    /// Component-wise equality.
    pub fn same_as(&self, other: &AbsPath) -> (b: bool)
        ensures
            b == (self@ == other@),
    {
        let n = self.parts.len();
        if n != other.parts.len() {
            proof {
                assert(self@.len() != other@.len());
            }
            return false;
        }
        let mut i: usize = 0;
        while i < n
            invariant
                n == self.parts.len(),
                n == other.parts.len(),
                i <= n,
                forall|k: int| 0 <= k < i ==> self@[k] == other@[k],
            decreases n - i,
        {
            if !same_text(&self.parts[i], &other.parts[i]) {
                proof {
                    assert(self@[i as int] != other@[i as int]);
                }
                return false;
            }
            i = i + 1;
        }
        proof {
            assert(self@ =~= other@);
        }
        true
    }

    /// Whether `self` is `other` or one of its ancestors.
    pub fn is_prefix(&self, other: &AbsPath) -> (b: bool)
        ensures
            b == is_prefix_of(self@, other@),
    {
        let n = self.parts.len();
        if n > other.parts.len() {
            return false;
        }
        let mut i: usize = 0;
        while i < n
            invariant
                n == self.parts.len(),
                n <= other.parts.len(),
                i <= n,
                forall|k: int| 0 <= k < i ==> self@[k] == other@[k],
            decreases n - i,
        {
            if !same_text(&self.parts[i], &other.parts[i]) {
                proof {
                    assert(other@.take(n as int)[i as int] != self@[i as int]);
                }
                return false;
            }
            i = i + 1;
        }
        proof {
            assert(other@.take(n as int) =~= self@);
        }
        true
    }

    /// Whether the components of `child` are the last components of `self`.
    pub fn has_suffix(&self, child: &Vec<String>) -> (b: bool)
        ensures
            b == is_suffix_of(child.deep_view(), self@),
    {
        let n = self.parts.len();
        let m = child.len();
        if m > n {
            return false;
        }
        let off = n - m;
        let mut i: usize = 0;
        while i < m
            invariant
                n == self.parts.len(),
                m == child.len(),
                off == n - m,
                i <= m,
                forall|k: int| 0 <= k < i ==> self@[k + off] == child.deep_view()[k],
            decreases m - i,
        {
            if !same_text(&self.parts[off + i], &child[i]) {
                proof {
                    assert(self@.skip(off as int)[i as int] != child.deep_view()[i as int]);
                }
                return false;
            }
            i = i + 1;
        }
        proof {
            assert(self@.skip(off as int) =~= child.deep_view());
        }
        true
    }
}

/// The components of the path string `s`.
pub fn components(s: &str) -> (parts: Vec<String>)
    ensures
        parts.deep_view() == components_of(s@),
{
    let pieces = split_str(s, '/');
    let n = pieces.len();
    let mut parts: Vec<String> = Vec::new();
    let mut i: usize = 0;
    while i < n
        invariant
            n == pieces.len(),
            i <= n,
            pieces.deep_view() == split_on(s@, '/'),
            parts.deep_view() == named_pieces(pieces.deep_view().take(i as int)),
        decreases n - i,
    {
        proof {
            assert(pieces.deep_view().take(i as int + 1).drop_last() =~= pieces.deep_view().take(
                i as int,
            ));
        }
        if named_piece(&pieces[i]) {
            let ghost before = parts.deep_view();
            parts.push(pieces[i].clone());
            proof {
                assert(parts.deep_view() =~= before.push(pieces.deep_view()[i as int]));
            }
        }
        i = i + 1;
    }
    proof {
        assert(pieces.deep_view().take(n as int) =~= pieces.deep_view());
    }
    parts
}

/// `base` joined with the path string `s`, as `Path::join` does it.
pub fn join(base: &AbsPath, s: &str) -> (p: AbsPath)
    ensures
        p@ == joined(base@, s@),
{
    let tail = components(s);
    if is_absolute(s) {
        AbsPath { parts: tail }
    } else {
        let mut parts = base.duplicate().parts;
        let m = tail.len();
        let ghost start = parts.deep_view();
        let mut i: usize = 0;
        while i < m
            invariant
                m == tail.len(),
                i <= m,
                start == base@,
                parts.deep_view() == start + tail.deep_view().take(i as int),
            decreases m - i,
        {
            let ghost before = parts.deep_view();
            parts.push(tail[i].clone());
            proof {
                assert(parts.deep_view() =~= before.push(tail.deep_view()[i as int]));
                assert(start + tail.deep_view().take(i as int + 1) =~= (start
                    + tail.deep_view().take(i as int)).push(tail.deep_view()[i as int]));
            }
            i = i + 1;
        }
        proof {
            assert(tail.deep_view().take(m as int) =~= tail.deep_view());
        }
        AbsPath { parts }
    }
}

/// The directory reached from `base` by following `pieces`.
pub fn walk(base: &AbsPath, pieces: &Vec<String>) -> (p: AbsPath)
    ensures
        p@ == walked(base@, pieces.deep_view()),
{
    let mut parts = base.duplicate().parts;
    let n = pieces.len();
    let mut i: usize = 0;
    proof {
        assert(pieces.deep_view().take(0) =~= Seq::<Seq<char>>::empty());
    }
    while i < n
        invariant
            n == pieces.len(),
            i <= n,
            parts.deep_view() == walked(base@, pieces.deep_view().take(i as int)),
        decreases n - i,
    {
        proof {
            assert(pieces.deep_view().take(i as int + 1).drop_last() =~= pieces.deep_view().take(
                i as int,
            ));
        }
        let ghost before = parts.deep_view();
        if is_dot_dot(&pieces[i]) {
            if parts.len() > 0 {
                parts.pop();
                proof {
                    assert(parts.deep_view() =~= before.drop_last());
                }
            }
        } else if named_piece(&pieces[i]) {
            parts.push(pieces[i].clone());
            proof {
                assert(parts.deep_view() =~= before.push(pieces.deep_view()[i as int]));
            }
        }
        i = i + 1;
    }
    proof {
        assert(pieces.deep_view().take(n as int) =~= pieces.deep_view());
    }
    AbsPath { parts }
}

/// Whether the absolute path `path` ends with the path string `child`, as
/// `Path::ends_with` decides it.
pub fn ends_with(path: &AbsPath, child: &str) -> (b: bool)
    ensures
        b == path_ends_with(path@, child@),
{
    let parts = components(child);
    if is_absolute(child) {
        let other = AbsPath { parts };
        path.same_as(&other)
    } else if cur_dir_first(child) {
        false
    } else {
        path.has_suffix(&parts)
    }
}

/// Going down into a directory and back up with `..` returns to where one
/// was.
pub proof fn lemma_down_then_up(base: Seq<Seq<char>>, name: Seq<char>)
    requires
        is_named_piece(name),
        name != dot_dot(),
    ensures
        walked(base, seq![name, dot_dot()]) == base,
{
    let pieces = seq![name, dot_dot()];
    assert(pieces.drop_last() =~= seq![name]);
    assert(seq![name].drop_last() =~= Seq::<Seq<char>>::empty());
    assert(walked(base, Seq::<Seq<char>>::empty()) == base);
    assert(seq![name].last() == name);
    assert(walked(base, seq![name]) == base.push(name));
    assert(pieces.last() == dot_dot());
    assert(base.push(name).drop_last() =~= base);
}

/// Cutting `a`, a separator and `b` at the separator gives the pieces of
/// `a` followed by the pieces of `b`.
pub proof fn lemma_split_on_concat(a: Seq<char>, b: Seq<char>, sep: char)
    ensures
        split_on(a + seq![sep] + b, sep) == split_on(a, sep) + split_on(b, sep),
    decreases b.len(),
{
    let x = a + seq![sep] + b;
    lemma_split_on_nonempty(a, sep);
    if b.len() == 0 {
        assert(x =~= a + seq![sep]);
        assert(x.drop_last() =~= a);
        assert(split_on(b, sep) =~= seq![Seq::<char>::empty()]);
        assert(split_on(x, sep) =~= split_on(a, sep) + split_on(b, sep));
    } else {
        lemma_split_on_concat(a, b.drop_last(), sep);
        lemma_split_on_nonempty(b.drop_last(), sep);
        assert(x.drop_last() =~= a + seq![sep] + b.drop_last());
        assert(x.last() == b.last());
        let pa = split_on(a, sep);
        let pb = split_on(b.drop_last(), sep);
        if b.last() == sep {
            assert(split_on(x, sep) =~= pa + split_on(b, sep));
        } else {
            let whole = pa + pb;
            assert(whole.last() == pb.last());
            assert(split_on(x, sep) =~= pa + split_on(b, sep));
        }
    }
}

/// Following `p` and then `q` leads where following them in one go leads.
pub proof fn lemma_walked_concat(base: Seq<Seq<char>>, p: Seq<Seq<char>>, q: Seq<Seq<char>>)
    ensures
        walked(base, p + q) == walked(walked(base, p), q),
    decreases q.len(),
{
    if q.len() == 0 {
        assert(p + q =~= p);
    } else {
        lemma_walked_concat(base, p, q.drop_last());
        assert((p + q).drop_last() =~= p + q.drop_last());
        assert((p + q).last() == q.last());
    }
}

/// Following the path string `a/b` leads where following `a` and then `b`
/// leads.
pub proof fn lemma_walk_in_steps(base: Seq<Seq<char>>, a: Seq<char>, b: Seq<char>)
    ensures
        walked(base, split_on(a + seq!['/'] + b, '/')) == walked(
            walked(base, split_on(a, '/')),
            split_on(b, '/'),
        ),
{
    lemma_split_on_concat(a, b, '/');
    lemma_walked_concat(base, split_on(a, '/'), split_on(b, '/'));
}

} // verus!
