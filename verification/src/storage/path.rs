//! Paths, taken component by component.

use vstd::prelude::*;

use crate::order;
use crate::order::Position;

verus! {

/// The path of a file: a directory, and a path that begins there, most often a name. Two
/// paths with the same components are the same, however they are spelled.
#[derive(Debug, PartialEq, Eq)]
pub struct FilePath {
    /// The directory.
    pub dir: Vec<u8>,
    /// The path of the file in that directory; if it is empty, the path is the directory's.
    pub name: Vec<u8>,
}

/// What a [`FilePath`] stands for: the directory of the file in [`plain`] form, and its last
/// component.
pub type PathView = (Seq<u8>, Seq<u8>);

/// Where the first separator in `s` is, or the end of `s`.
pub open spec fn first_separator(s: Seq<u8>) -> nat
    decreases s.len(),
{
    if s.len() == 0 || s[0] == 47 {
        0
    } else {
        1 + first_separator(s.drop_first())
    }
}

/// The path `so_far` with one more component. An empty one counts for nothing, and so
/// does a `.` unless the path begins with it.
pub open spec fn with_component(so_far: Seq<u8>, part: Seq<u8>, begins: bool) -> Seq<u8> {
    if part.len() == 0 || (part == seq![46u8] && !begins) {
        so_far
    } else if so_far.len() == 0 || so_far.last() == 47 {
        so_far + part
    } else {
        so_far + seq![47u8] + part
    }
}

/// The path `so_far` with the components of `s`.
pub open spec fn with_components(so_far: Seq<u8>, s: Seq<u8>, begins: bool) -> Seq<u8>
    decreases s.len(),
{
    let n = first_separator(s) as int;
    let more = with_component(so_far, s.take(n), begins);
    if n < s.len() {
        with_components(more, s.skip(n + 1), false)
    } else {
        more
    }
}

/// A path by its components: without repeated separators, a separator at the end, or
/// components that stay where they are. Two paths are the same if these are.
pub open spec fn plain(path: Seq<u8>) -> Seq<u8> {
    with_components(
        if path.len() > 0 && path[0] == 47 {
            seq![47u8]
        } else {
            Seq::empty()
        },
        path,
        true,
    )
}

/// A separator is where the first one is, if none comes before it.
proof fn lemma_first_separator(s: Seq<u8>, n: int)
    requires
        0 <= n <= s.len(),
        forall|i: int| 0 <= i < n ==> s[i] != 47,
        n == s.len() || s[n] == 47,
    ensures
        first_separator(s) == n,
    decreases s.len(),
{
    if n > 0 {
        let rest = s.drop_first();
        assert forall|i: int| 0 <= i < n - 1 implies rest[i] != 47 by {
            assert(rest[i] == s[i + 1]);
        }
        lemma_first_separator(rest, n - 1);
    }
}

/// What stands before the first separator has none.
proof fn lemma_before_separator(s: Seq<u8>)
    ensures
        first_separator(s) <= s.len(),
        forall|i: int| 0 <= i < first_separator(s) ==> s[i] != 47,
    decreases s.len(),
{
    if s.len() > 0 && s[0] != 47 {
        let rest = s.drop_first();
        lemma_before_separator(rest);
        assert forall|i: int| 0 <= i < first_separator(s) implies s[i] != 47 by {
            if i > 0 {
                assert(rest[i - 1] == s[i]);
            }
        }
    }
}

/// A path in plain form ends in a separator only if it is the root.
spec fn ends_plainly(s: Seq<u8>) -> bool {
    s.len() == 0 || s.last() != 47 || s == seq![47u8]
}

proof fn lemma_ends_plainly(so_far: Seq<u8>, s: Seq<u8>, begins: bool)
    requires
        ends_plainly(so_far),
    ensures
        ends_plainly(with_components(so_far, s, begins)),
    decreases s.len(),
{
    let n = first_separator(s) as int;
    lemma_before_separator(s);
    let part = s.take(n);
    let more = with_component(so_far, part, begins);
    if part.len() > 0 {
        assert(part.last() == s[n - 1]);
    }
    assert(ends_plainly(more));
    if n < s.len() {
        lemma_ends_plainly(more, s.skip(n + 1), false);
    }
}

/// The whole path of `name` in `dir`, in plain form. A `name` that begins with a separator
/// is a path of its own.
pub open spec fn whole(dir: Seq<u8>, name: Seq<u8>) -> Seq<u8> {
    if name.len() == 0 {
        plain(dir)
    } else if name[0] == 47 {
        plain(name)
    } else {
        with_components(plain(dir), name, plain(dir).len() == 0)
    }
}

/// Where the last separator in `s` is, or -1.
pub open spec fn last_separator(s: Seq<u8>) -> int
    decreases s.len(),
{
    if s.len() == 0 {
        -1
    } else if s.last() == 47 {
        s.len() - 1
    } else {
        last_separator(s.drop_last())
    }
}

/// What stands for the directory of a path that is in none: the root, or the empty path. No
/// path in plain form is written like this.
pub open spec fn nowhere() -> Seq<u8> {
    seq![47u8, 47u8]
}

/// A path in plain form as the directory and the last component.
pub open spec fn split(path: Seq<u8>) -> PathView {
    let k = last_separator(path);
    if path.len() == 0 || path == seq![47u8] {
        (nowhere(), path)
    } else if k < 0 {
        (Seq::empty(), path)
    } else if k == 0 {
        (seq![47u8], path.skip(1))
    } else {
        (path.take(k), path.skip(k + 1))
    }
}

/// The file that `name` is in `dir`.
pub open spec fn located(dir: Seq<u8>, name: Seq<u8>) -> PathView {
    split(whole(dir, name))
}

/// `name` is one component that leads somewhere.
pub open spec fn is_simple(name: Seq<u8>) -> bool {
    &&& name.len() > 0
    &&& forall|i: int| 0 <= i < name.len() ==> name[i] != 47
    &&& name != seq![46u8]
}

proof fn lemma_last_separator(s: Seq<u8>, k: int)
    requires
        -1 <= k < s.len(),
        k >= 0 ==> s[k] == 47,
        forall|i: int| k < i < s.len() ==> s[i] != 47,
    ensures
        last_separator(s) == k,
    decreases s.len(),
{
    if s.len() > 0 && s.last() != 47 {
        lemma_last_separator(s.drop_last(), k);
    }
}

/// A name of one component is found in the directory.
pub proof fn lemma_simple(dir: Seq<u8>, name: Seq<u8>)
    requires
        is_simple(name),
    ensures
        located(dir, name) == (plain(dir), name),
{
    let d = plain(dir);
    let n = name.len() as int;
    lemma_first_separator(name, n);
    assert(name.take(n) =~= name);
    lemma_ends_plainly(
        if dir.len() > 0 && dir[0] == 47 {
            seq![47u8]
        } else {
            Seq::empty()
        },
        dir,
        true,
    );
    let path = whole(dir, name);
    assert(path == with_component(d, name, d.len() == 0));
    assert(path.last() == name.last());
    assert(path != seq![47u8]);
    if d.len() == 0 {
        assert(path =~= name);
        lemma_last_separator(path, -1);
    } else if d.last() == 47 {
        assert(path =~= seq![47u8] + name);
        lemma_last_separator(path, 0);
        assert(path.skip(1) =~= name);
    } else {
        let k = d.len() as int;
        assert forall|i: int| k < i < path.len() implies path[i] != 47 by {
            assert(path[i] == name[i - k - 1]);
        }
        lemma_last_separator(path, k);
        assert(path.take(k) =~= d);
        assert(path.skip(k + 1) =~= name);
    }
}

/// Adds the components of `s` to the path `out`.
fn add_components(out: &mut Vec<u8>, s: &[u8], begins: bool)
    ensures
        final(out)@ == with_components(old(out)@, s@, begins),
{
    let mut begins: bool = begins;
    let mut start: usize = 0;
    let ghost want = with_components(out@, s@, begins);
    assert(s@.skip(0) =~= s@);
    loop
        invariant_except_break
            start <= s@.len(),
            with_components(out@, s@.skip(start as int), begins) == want,
        ensures
            out@ == want,
        decreases s@.len() - start,
    {
        let mut end: usize = start;
        while end < s.len() && s[end] != 47
            invariant
                start <= end <= s@.len(),
                forall|i: int| start <= i < end ==> s@[i] != 47,
            decreases s@.len() - end,
        {
            end = end + 1;
        }
        let ghost rest = s@.skip(start as int);
        let ghost part = rest.take(end - start);
        let ghost before = out@;
        proof {
            assert forall|i: int| 0 <= i < end - start implies rest[i] != 47 by {
                assert(rest[i] == s@[start + i]);
            }
            lemma_first_separator(rest, end - start);
            assert(part.len() == end - start);
        }
        let stays: bool = end - start == 1 && s[start] == 46 && !begins;
        proof {
            if end - start == 1 {
                assert(part[0] == s@[start as int]);
                assert(part == seq![46u8] <==> s@[start as int] == 46) by {
                    if s@[start as int] == 46 {
                        assert(part =~= seq![46u8]);
                    }
                }
            }
        }
        if end > start && !stays {
            if out.len() > 0 && out[out.len() - 1] != 47 {
                out.push(47);
            }
            let ghost joined = out@;
            let mut i: usize = start;
            while i < end
                invariant
                    start <= i <= end <= s@.len(),
                    out@ == joined + s@.subrange(start as int, i as int),
                decreases end - i,
            {
                out.push(s[i]);
                i = i + 1;
                assert(out@ =~= joined + s@.subrange(start as int, i as int));
            }
            assert(part =~= s@.subrange(start as int, end as int));
        }
        assert(out@ =~= with_component(before, part, begins));
        if end >= s.len() {
            assert(rest.len() == end - start);
            break;
        }
        assert(rest.skip(end - start + 1) =~= s@.skip(end + 1));
        begins = false;
        start = end + 1;
    }
}

/// The [`plain`] form of a path.
pub fn plain_path(path: &[u8]) -> (r: Vec<u8>)
    ensures
        r@ == plain(path@),
{
    let mut out: Vec<u8> = Vec::new();
    if path.len() > 0 && path[0] == 47 {
        out.push(47);
    }
    assert(out@ =~= if path@.len() > 0 && path@[0] == 47 {
        seq![47u8]
    } else {
        Seq::empty()
    });
    add_components(&mut out, path, true);
    out
}

/// Whether two directories are the same.
fn same_dir(a: &[u8], b: &[u8]) -> (r: bool)
    ensures
        r == (plain(a@) == plain(b@)),
{
    order::same_bytes(a, b) || order::same_bytes(&plain_path(a), &plain_path(b))
}

/// Whether `name` is one component that leads somewhere.
fn simple(name: &[u8]) -> (r: bool)
    ensures
        r == is_simple(name@),
{
    if name.len() == 0 || (name.len() == 1 && name[0] == 46) {
        proof {
            if name@.len() > 0 {
                assert(name@ =~= seq![46u8]);
            }
        }
        return false;
    }
    let mut i: usize = 0;
    while i < name.len()
        invariant
            i <= name@.len(),
            name@.len() > 0,
            forall|j: int| 0 <= j < i ==> name@[j] != 47,
        decreases name.len() - i,
    {
        if name[i] == 47 {
            return false;
        }
        i = i + 1;
    }
    assert(name@ != seq![46u8]) by {
        if name@ == seq![46u8] {
            assert(name@.len() == 1 && name@[0] == 46);
        }
    }
    true
}

impl View for FilePath {
    type V = PathView;

    open spec fn view(&self) -> PathView {
        located(self.dir@, self.name@)
    }
}

impl Clone for FilePath {
    fn clone(&self) -> (r: Self)
        ensures
            r.dir@ == self.dir@,
            r.name@ == self.name@,
            r@ == self@,
    {
        FilePath { dir: self.dir.clone(), name: self.name.clone() }
    }
}

impl FilePath {
    /// The path of `name` in `dir`.
    pub fn new(dir: &[u8], name: &[u8]) -> (p: FilePath)
        ensures
            p.dir@ == dir@,
            p.name@ == name@,
            p@ == located(dir@, name@),
            is_simple(name@) ==> p@ == (plain(dir@), name@),
    {
        let mut d: Vec<u8> = Vec::new();
        d.extend_from_slice(dir);
        let mut n: Vec<u8> = Vec::new();
        n.extend_from_slice(name);
        assert(d@ =~= dir@);
        assert(n@ =~= name@);
        proof {
            if is_simple(name@) {
                lemma_simple(dir@, name@);
            }
        }
        FilePath { dir: d, name: n }
    }

    /// The directory of the file, and its last component.
    pub fn parts(&self) -> (r: (Vec<u8>, Vec<u8>))
        ensures
            (r.0@, r.1@) == self@,
    {
        let path: Vec<u8> = self.whole();
        if path.len() == 0 || (path.len() == 1 && path[0] == 47) {
            proof {
                if path@.len() > 0 {
                    assert(path@ =~= seq![47u8]);
                }
            }
            let none: Vec<u8> = vec![47u8, 47u8];
            assert(none@ =~= nowhere());
            return (none, path);
        }
        assert(path@ != seq![47u8]) by {
            if path@ == seq![47u8] {
                assert(path@.len() == 1 && path@[0] == 47);
            }
        }
        let mut at: usize = path.len();
        while at > 0 && path[at - 1] != 47
            invariant
                at <= path@.len(),
                forall|i: int| at <= i < path@.len() ==> path@[i] != 47,
            decreases at,
        {
            at = at - 1;
        }
        proof {
            lemma_last_separator(path@, at - 1);
        }
        let mut dir: Vec<u8> = Vec::new();
        if at == 1 {
            dir.push(47);
            assert(dir@ =~= seq![47u8]);
        } else if at > 1 {
            dir.extend_from_slice(&path[0..at - 1]);
            assert(dir@ =~= path@.take(at - 1));
        } else {
            assert(dir@ =~= Seq::empty());
        }
        let mut name: Vec<u8> = Vec::new();
        name.extend_from_slice(&path[at..path.len()]);
        assert(name@ =~= path@.skip(at as int));
        assert(at == 0 ==> path@.skip(0) =~= path@);
        (dir, name)
    }

    /// The whole path in plain form.
    fn whole(&self) -> (r: Vec<u8>)
        ensures
            r@ == whole(self.dir@, self.name@),
    {
        if self.name.len() > 0 && self.name[0] == 47 {
            return plain_path(&self.name);
        }
        let mut path: Vec<u8> = plain_path(&self.dir);
        if self.name.len() > 0 {
            let begins: bool = path.len() == 0;
            add_components(&mut path, &self.name, begins);
        }
        path
    }

    /// The last component of the path.
    pub fn base(&self) -> (r: Vec<u8>)
        ensures
            r@ == self@.1,
    {
        if simple(&self.name) {
            proof {
                lemma_simple(self.dir@, self.name@);
            }
            return self.name.clone();
        }
        self.parts().1
    }

    /// Whether the file is in directory `dir`.
    pub fn is_in(&self, dir: &[u8]) -> (r: bool)
        ensures
            r == (self@.0 == plain(dir@)),
    {
        if simple(&self.name) {
            proof {
                lemma_simple(self.dir@, self.name@);
            }
            return same_dir(&self.dir, dir);
        }
        order::same_bytes(&self.parts().0, &plain_path(dir))
    }

    /// Whether two paths name the same file.
    pub fn same(&self, other: &FilePath) -> (r: bool)
        ensures
            r == (self@ == other@),
    {
        if order::same_bytes(&self.dir, &other.dir) {
            if order::same_bytes(&self.name, &other.name) {
                return true;
            }
            if simple(&self.name) && simple(&other.name) {
                proof {
                    lemma_simple(self.dir@, self.name@);
                    lemma_simple(other.dir@, other.name@);
                }
                return false;
            }
        }
        let (a, b) = self.parts();
        let (c, d) = other.parts();
        order::same_bytes(&a, &c) && order::same_bytes(&b, &d)
    }

    /// The path as it is spelled: directory and name with a separator between them, where
    /// one is needed.
    pub open spec fn text(&self) -> Seq<u8> {
        if self.name@.len() == 0 {
            self.dir@
        } else if self.dir@.len() == 0 || self.name@[0] == 47 {
            self.name@
        } else if self.dir@.last() == 47 {
            self.dir@ + self.name@
        } else {
            self.dir@ + seq![47u8] + self.name@
        }
    }

    /// The path as it is spelled.
    pub fn spelled(&self) -> (r: Vec<u8>)
        ensures
            r@ == self.text(),
    {
        let mut path: Vec<u8> = Vec::new();
        if self.name.len() == 0 || self.name[0] != 47 {
            path.extend_from_slice(&self.dir);
            assert(path@ =~= self.dir@);
            if self.name.len() > 0 && path.len() > 0 && path[path.len() - 1] != 47 {
                path.push(47);
            }
        }
        let ghost before = path@;
        path.extend_from_slice(&self.name);
        assert(path@ =~= before + self.name@);
        assert(path@ =~= self.text());
        path
    }
}

/// `s` with zeros marked, so that a zero can be told from an end.
pub open spec fn escaped(s: Seq<u8>) -> Seq<u8>
    decreases s.len(),
{
    if s.len() == 0 {
        s
    } else if s.last() == 0 {
        escaped(s.drop_last()) + seq![0u8, 255u8]
    } else {
        escaped(s.drop_last()) + seq![s.last()]
    }
}

/// What a component is sorted by: `.` comes first, then `..`, and then names by their
/// bytes.
pub open spec fn part_key(part: Seq<u8>) -> Seq<u8> {
    if part == seq![46u8] {
        seq![2u8]
    } else if part == seq![46u8, 46u8] {
        seq![3u8]
    } else {
        seq![4u8] + escaped(part) + seq![0u8, 0u8]
    }
}

/// What the components of `s` are sorted by, one after the other.
pub open spec fn parts_key(s: Seq<u8>) -> Seq<u8>
    decreases s.len(),
{
    let n = first_separator(s) as int;
    let head = if n == 0 {
        Seq::empty()
    } else {
        part_key(s.take(n))
    };
    if n < s.len() {
        head + parts_key(s.skip(n + 1))
    } else {
        head
    }
}

/// The whole path of a file.
pub open spec fn joined(p: PathView) -> Seq<u8> {
    if p.0 == nowhere() || p.0.len() == 0 {
        p.1
    } else if p.0.last() == 47 {
        p.0 + p.1
    } else {
        p.0 + seq![47u8] + p.1
    }
}

/// What paths are sorted by: component by component, the root before everything else.
pub open spec fn component_key(p: PathView) -> Seq<u8> {
    let path = joined(p);
    if path.len() > 0 && path[0] == 47 {
        seq![1u8] + parts_key(path)
    } else {
        parts_key(path)
    }
}

/// In a directory, `a` comes before `b`.
pub open spec fn name_before(a: Seq<u8>, b: Seq<u8>) -> bool {
    ||| order::lex_lt(part_key(a), part_key(b))
    ||| part_key(a) == part_key(b) && order::lex_lt(a, b)
}

/// Names in a directory have an order.
pub proof fn lemma_name_before(a: Seq<u8>, b: Seq<u8>, c: Seq<u8>)
    ensures
        !name_before(a, a),
        a == b || name_before(a, b) || name_before(b, a),
        name_before(a, b) ==> !name_before(b, a),
        name_before(a, b) && name_before(b, c) ==> name_before(a, c),
{
    order::lemma_lex_irreflexive(part_key(a));
    order::lemma_lex_irreflexive(part_key(b));
    order::lemma_lex_irreflexive(a);
    order::lemma_lex_total(part_key(a), part_key(b));
    order::lemma_lex_total(a, b);
    if order::lex_lt(part_key(a), part_key(b)) {
        order::lemma_lex_asymmetric(part_key(a), part_key(b));
    }
    if order::lex_lt(a, b) {
        order::lemma_lex_asymmetric(a, b);
    }
    if order::lex_lt(part_key(a), part_key(b)) && order::lex_lt(part_key(b), part_key(c)) {
        order::lemma_lex_transitive(part_key(a), part_key(b), part_key(c));
    }
    if order::lex_lt(a, b) && order::lex_lt(b, c) {
        order::lemma_lex_transitive(a, b, c);
    }
}

/// Appends what a component is sorted by.
fn put_part_key(out: &mut Vec<u8>, part: &[u8])
    ensures
        final(out)@ == old(out)@ + part_key(part@),
{
    if part.len() == 1 && part[0] == 46 {
        out.push(2);
        assert(part@ =~= seq![46u8]);
        assert(out@ =~= old(out)@ + part_key(part@));
        return;
    }
    if part.len() == 2 && part[0] == 46 && part[1] == 46 {
        out.push(3);
        assert(part@ =~= seq![46u8, 46u8]);
        assert(part@ != seq![46u8]) by {
            assert(part@.len() == 2);
        }
        assert(out@ =~= old(out)@ + part_key(part@));
        return;
    }
    assert(part@ != seq![46u8] && part@ != seq![46u8, 46u8]) by {
        if part@ == seq![46u8] {
            assert(part@.len() == 1 && part@[0] == 46);
        }
        if part@ == seq![46u8, 46u8] {
            assert(part@.len() == 2 && part@[0] == 46 && part@[1] == 46);
        }
    }
    out.push(4);
    let ghost before = out@;
    let mut i: usize = 0;
    assert(part@.take(0) =~= Seq::empty());
    assert(out@ =~= before + escaped(part@.take(0)));
    while i < part.len()
        invariant
            i <= part@.len(),
            out@ == before + escaped(part@.take(i as int)),
        decreases part.len() - i,
    {
        assert(part@.take(i + 1).drop_last() =~= part@.take(i as int));
        assert(part@.take(i + 1).last() == part@[i as int]);
        let ghost so_far = out@;
        out.push(part[i]);
        if part[i] == 0 {
            out.push(255);
        }
        i = i + 1;
        assert(out@ =~= before + escaped(part@.take(i as int)));
    }
    assert(part@.take(i as int) =~= part@);
    out.push(0);
    out.push(0);
    assert(out@ =~= old(out)@ + part_key(part@));
}

/// Whether in a directory `a` comes before `b`.
pub fn comes_before(a: &[u8], b: &[u8]) -> (r: bool)
    ensures
        r == name_before(a@, b@),
{
    let mut ka: Vec<u8> = Vec::new();
    put_part_key(&mut ka, a);
    let mut kb: Vec<u8> = Vec::new();
    put_part_key(&mut kb, b);
    assert(ka@ =~= part_key(a@));
    assert(kb@ =~= part_key(b@));
    proof {
        lemma_name_before(a@, b@, a@);
        order::lemma_lex_irreflexive(part_key(a@));
        if order::lex_lt(part_key(b@), part_key(a@)) {
            order::lemma_lex_asymmetric(part_key(b@), part_key(a@));
        }
        if order::lex_lt(b@, a@) {
            order::lemma_lex_asymmetric(b@, a@);
        }
        order::lemma_lex_irreflexive(a@);
    }
    match order::position(&ka, &kb) {
        Position::Before => true,
        Position::After => false,
        Position::Same => match order::position(a, b) {
            Position::Before => true,
            _ => false,
        },
    }
}

impl FilePath {
    /// What the path is sorted by.
    pub fn key(&self) -> (key: Vec<u8>)
        ensures
            key@ == component_key(self@),
    {
        let (dir, name) = self.parts();
        let mut path: Vec<u8> = Vec::new();
        if !(dir.len() == 2 && dir[0] == 47 && dir[1] == 47) {
            assert(dir@ != nowhere()) by {
                if dir@ == nowhere() {
                    assert(dir@.len() == 2 && dir@[0] == 47 && dir@[1] == 47);
                }
            }
            path.extend_from_slice(&dir);
            assert(path@ =~= dir@);
            if path.len() > 0 && path[path.len() - 1] != 47 {
                path.push(47);
            }
        } else {
            assert(dir@ =~= nowhere());
        }
        let ghost before = path@;
        path.extend_from_slice(&name);
        assert(path@ =~= before + name@);
        assert(path@ =~= joined(self@));
        let mut key: Vec<u8> = Vec::new();
        if path.len() > 0 && path[0] == 47 {
            key.push(1);
        }
        let mut start: usize = 0;
        assert(path@.skip(0) =~= path@);
        assert(key@ + parts_key(path@.skip(0)) =~= component_key(self@));
        loop
            invariant_except_break
                start <= path@.len(),
                key@ + parts_key(path@.skip(start as int)) == component_key(self@),
            ensures
                key@ == component_key(self@),
            decreases path@.len() - start,
        {
            let mut end: usize = start;
            while end < path.len() && path[end] != 47
                invariant
                    start <= end <= path@.len(),
                    forall|i: int| start <= i < end ==> path@[i] != 47,
                decreases path@.len() - end,
            {
                end = end + 1;
            }
            let ghost rest = path@.skip(start as int);
            let ghost so_far = key@;
            proof {
                assert forall|i: int| 0 <= i < end - start implies rest[i] != 47 by {
                    assert(rest[i] == path@[start + i]);
                }
                lemma_first_separator(rest, end - start);
            }
            if end > start {
                let part = &path[start..end];
                assert(part@ =~= rest.take(end - start));
                put_part_key(&mut key, part);
            }
            if end >= path.len() {
                assert(rest.len() == end - start);
                assert(key@ =~= so_far + parts_key(rest));
                break;
            }
            assert(rest.skip(end - start + 1) =~= path@.skip(end + 1));
            assert(key@ + parts_key(path@.skip(end + 1)) =~= so_far + parts_key(rest));
            start = end + 1;
        }
        key
    }
}

proof fn lemma_no_separator(s: Seq<u8>, t: Seq<u8>)
    ensures
        first_separator(s) <= s.len(),
        first_separator(s) < s.len() ==> first_separator(s + t) == first_separator(s),
        first_separator(s) == s.len() ==> first_separator(s + t) == s.len() + first_separator(t),
    decreases s.len(),
{
    if s.len() == 0 {
        assert(s + t =~= t);
    } else if s[0] != 47 {
        lemma_no_separator(s.drop_first(), t);
        assert((s + t).drop_first() =~= s.drop_first() + t);
    }
}

/// The components of two paths with a separator between them are those of the one and then
/// those of the other.
proof fn lemma_with_joined(so_far: Seq<u8>, s: Seq<u8>, t: Seq<u8>, begins: bool)
    ensures
        with_components(so_far, s + seq![47u8] + t, begins) == with_components(
            with_components(so_far, s, begins),
            t,
            false,
        ),
    decreases s.len(),
{
    let all = s + seq![47u8] + t;
    let rest = seq![47u8] + t;
    let n = first_separator(s) as int;
    assert(all =~= s + rest);
    lemma_no_separator(s, rest);
    assert(first_separator(rest) == 0);
    assert(first_separator(all) == n);
    assert(all.take(n) =~= s.take(n));
    let more = with_component(so_far, s.take(n), begins);
    if n < s.len() {
        lemma_with_joined(more, s.skip(n + 1), t, false);
        assert(all.skip(n + 1) =~= s.skip(n + 1) + seq![47u8] + t);
    } else {
        assert(all.skip(n + 1) =~= t);
    }
}

/// How paths are spelled does not count: a separator more at the end, or one more between two
/// parts, or a part that stays where it is, makes no other path.
pub proof fn lemma_spellings(s: Seq<u8>, t: Seq<u8>)
    requires
        s.len() > 0,
    ensures
        plain(s + seq![47u8]) == plain(s),
        plain(s + seq![47u8, 46u8]) == plain(s),
        plain(s + seq![47u8, 47u8] + t) == plain(s + seq![47u8] + t),
        plain(s + seq![47u8, 46u8, 47u8] + t) == plain(s + seq![47u8] + t),
{
    let none = Seq::<u8>::empty();
    let root = if s[0] == 47 {
        seq![47u8]
    } else {
        none
    };
    let dot = seq![46u8];
    assert(s + seq![47u8] =~= s + seq![47u8] + none);
    lemma_with_joined(root, s, none, true);
    assert(s + seq![47u8, 46u8] =~= s + seq![47u8] + dot);
    lemma_with_joined(root, s, dot, true);
    let two = seq![47u8] + t;
    assert(s + seq![47u8, 47u8] + t =~= s + seq![47u8] + two);
    lemma_with_joined(root, s, two, true);
    lemma_with_joined(root, s, t, true);
    let so_far = with_components(root, s, true);
    assert(none + seq![47u8] + t =~= two);
    lemma_with_joined(so_far, none, t, false);
    assert(with_components(so_far, none, false) == so_far);
    let three = dot + seq![47u8] + t;
    assert(s + seq![47u8, 46u8, 47u8] + t =~= s + seq![47u8] + three);
    lemma_with_joined(root, s, three, true);
    lemma_with_joined(so_far, dot, t, false);
    assert(first_separator(dot) == 1) by {
        reveal_with_fuel(first_separator, 3);
    }
    assert(dot.take(1) =~= dot);
    assert(with_components(so_far, dot, false) == so_far);
}

/// Where a path is split into directory and name does not count: `b` in the directory `a` of
/// `d` is `a/b` in `d`.
pub proof fn lemma_split_anywhere(d: Seq<u8>, a: Seq<u8>, b: Seq<u8>)
    requires
        d.len() > 0,
        is_simple(a),
        b.len() > 0,
        b[0] != 47,
    ensures
        located(d, a + seq![47u8] + b) == located(d + seq![47u8] + a, b),
{
    let root = if d[0] == 47 {
        seq![47u8]
    } else {
        Seq::<u8>::empty()
    };
    let home = plain(d);
    lemma_with_joined(root, d, a, true);
    assert((d + seq![47u8] + a)[0] == d[0]);
    assert(plain(d + seq![47u8] + a) == with_components(home, a, false));
    lemma_no_separator_in(a);
    assert(a.take(a.len() as int) =~= a);
    assert(with_components(home, a, false) == with_component(home, a, false));
    assert(with_components(home, a, home.len() == 0) == with_component(home, a, home.len() == 0));
    assert(with_component(home, a, false).len() > 0);
    lemma_with_joined(home, a, b, home.len() == 0);
    assert((a + seq![47u8] + b)[0] == a[0]);
}

proof fn lemma_no_separator_in(s: Seq<u8>)
    requires
        forall|i: int| 0 <= i < s.len() ==> s[i] != 47,
    ensures
        first_separator(s) == s.len(),
    decreases s.len(),
{
    if s.len() > 0 {
        lemma_no_separator_in(s.drop_first());
    }
}

/// What is put in place of a byte so that a zero can be told from an end.
spec fn marked(x: u8) -> Seq<u8> {
    if x == 0 {
        seq![0u8, 255u8]
    } else {
        seq![x]
    }
}

proof fn lemma_escaped_front(s: Seq<u8>)
    requires
        s.len() > 0,
    ensures
        escaped(s) == marked(s[0]) + escaped(s.drop_first()),
    decreases s.len(),
{
    if s.len() == 1 {
        assert(s.drop_last() =~= Seq::empty());
        assert(s.drop_first() =~= Seq::empty());
        assert(escaped(s.drop_last()) =~= Seq::empty());
        assert(escaped(s.drop_first()) =~= Seq::empty());
        assert(escaped(s) =~= marked(s[0]) + escaped(s.drop_first()));
    } else {
        lemma_escaped_front(s.drop_last());
        assert(s.drop_last().drop_first() =~= s.drop_first().drop_last());
        assert(s.drop_first().last() == s.last());
        assert(escaped(s) =~= marked(s[0]) + escaped(s.drop_first()));
    }
}

proof fn lemma_escaped_order(a: Seq<u8>, b: Seq<u8>)
    ensures
        order::lex_lt(escaped(a) + seq![0u8, 0u8], escaped(b) + seq![0u8, 0u8]) <==> order::lex_lt(
            a,
            b,
        ),
    decreases a.len(),
{
    let end = seq![0u8, 0u8];
    let x = escaped(a) + end;
    let y = escaped(b) + end;
    if a.len() > 0 {
        lemma_escaped_front(a);
    }
    if b.len() > 0 {
        lemma_escaped_front(b);
    }
    if a.len() == 0 && b.len() == 0 {
        assert(a =~= b);
        order::lemma_lex_irreflexive(x);
    } else if a.len() == 0 {
        assert(x =~= end);
        if b[0] == 0 {
            let rest = escaped(b.drop_first()) + end;
            assert(y =~= seq![0u8, 255u8] + rest);
            assert(x.drop_first()[0] == 0 && y.drop_first()[0] == 255);
            assert(order::lex_lt(x.drop_first(), y.drop_first()));
        } else {
            assert(x[0] == 0 && y[0] == b[0]);
        }
        assert(order::lex_lt(x, y));
    } else if b.len() == 0 {
        assert(y =~= end);
        if a[0] == 0 {
            let rest = escaped(a.drop_first()) + end;
            assert(x =~= seq![0u8, 255u8] + rest);
            assert(x.drop_first()[0] == 255 && y.drop_first()[0] == 0);
            assert(!order::lex_lt(x.drop_first(), y.drop_first()));
        } else {
            assert(x[0] == a[0] && y[0] == 0);
        }
        assert(!order::lex_lt(x, y));
    } else if a[0] == b[0] {
        let (a1, b1) = (a.drop_first(), b.drop_first());
        let (x1, y1) = (escaped(a1) + end, escaped(b1) + end);
        lemma_escaped_order(a1, b1);
        assert(x =~= marked(a[0]) + x1);
        assert(y =~= marked(b[0]) + y1);
        order::lemma_lex_prefix(marked(a[0]), x1, y1);
        if !order::lex_lt(x1, y1) {
            order::lemma_lex_total(x1, y1);
            if x1 == y1 {
                order::lemma_lex_irreflexive(x);
            } else {
                order::lemma_lex_prefix(marked(a[0]), y1, x1);
                order::lemma_lex_asymmetric(y, x);
            }
        }
    } else {
        assert(x[0] == a[0] && y[0] == b[0]) by {
            assert(marked(a[0])[0] == a[0]);
            assert(marked(b[0])[0] == b[0]);
        }
    }
}

/// How names in a directory sort: by their bytes, but that `.` comes before `..`, and both come
/// before every other.
pub proof fn lemma_names_sort(a: Seq<u8>, b: Seq<u8>)
    requires
        a.len() > 0,
        b.len() > 0,
    ensures
        ({
            let special = |s: Seq<u8>| s == seq![46u8] || s == seq![46u8, 46u8];
            &&& !special(a) && !special(b) ==> (name_before(a, b) <==> order::lex_lt(a, b))
            &&& special(a) && !special(b) ==> name_before(a, b) && !name_before(b, a)
            &&& name_before(seq![46u8], seq![46u8, 46u8])
            &&& !name_before(a, a)
        }),
{
    let end = seq![0u8, 0u8];
    let (dot, up) = (seq![46u8], seq![46u8, 46u8]);
    assert(dot.len() != up.len());
    order::lemma_lex_irreflexive(a);
    order::lemma_lex_irreflexive(part_key(a));
    if a != dot && a != up && b != dot && b != up {
        lemma_escaped_order(a, b);
        let (x, y) = (escaped(a) + end, escaped(b) + end);
        assert(part_key(a) =~= seq![4u8] + x);
        assert(part_key(b) =~= seq![4u8] + y);
        assert(part_key(a).drop_first() =~= x);
        assert(part_key(b).drop_first() =~= y);
        assert(order::lex_lt(part_key(a), part_key(b)) <==> order::lex_lt(x, y));
        if order::lex_lt(a, b) {
            assert(name_before(a, b));
        }
    }
    assert(part_key(dot)[0] == 2 && part_key(up)[0] == 3);
    if (a == dot || a == up) && b != dot && b != up {
        assert(part_key(b)[0] == 4);
    }
}

proof fn lemma_parts_joined(s: Seq<u8>, t: Seq<u8>)
    ensures
        parts_key(s + seq![47u8] + t) == parts_key(s) + parts_key(t),
    decreases s.len(),
{
    let all = s + seq![47u8] + t;
    let rest = seq![47u8] + t;
    let n = first_separator(s) as int;
    assert(all =~= s + rest);
    lemma_no_separator(s, rest);
    assert(first_separator(rest) == 0);
    assert(first_separator(all) == n);
    assert(all.take(n) =~= s.take(n));
    if n < s.len() {
        lemma_parts_joined(s.skip(n + 1), t);
        assert(all.skip(n + 1) =~= s.skip(n + 1) + seq![47u8] + t);
        assert(parts_key(all) =~= parts_key(s) + parts_key(t));
    } else {
        assert(all.skip(n + 1) =~= t);
        assert(parts_key(all) =~= parts_key(s) + parts_key(t));
    }
}

/// How paths in one directory sort: as their names do.
pub proof fn lemma_siblings_sort(d: Seq<u8>, a: Seq<u8>, b: Seq<u8>)
    requires
        d.len() > 0,
        d.last() != 47,
        is_simple(a),
        is_simple(b),
    ensures
        order::lex_lt(component_key((d, a)), component_key((d, b))) || (component_key((d, a))
            == component_key((d, b)) && order::lex_lt(a, b)) <==> name_before(a, b),
{
    let root = if d[0] == 47 {
        seq![1u8]
    } else {
        Seq::<u8>::empty()
    };
    let front = root + parts_key(d);
    lemma_no_separator_in(a);
    lemma_no_separator_in(b);
    assert(a.take(a.len() as int) =~= a);
    assert(b.take(b.len() as int) =~= b);
    assert(parts_key(a) == part_key(a));
    assert(parts_key(b) == part_key(b));
    lemma_parts_joined(d, a);
    lemma_parts_joined(d, b);
    assert((d + seq![47u8] + a)[0] == d[0]);
    assert((d + seq![47u8] + b)[0] == d[0]);
    assert(component_key((d, a)) =~= front + part_key(a));
    assert(component_key((d, b)) =~= front + part_key(b));
    let (x, y) = (part_key(a), part_key(b));
    order::lemma_lex_total(x, y);
    if order::lex_lt(x, y) {
        order::lemma_lex_prefix(front, x, y);
    } else if x == y {
        order::lemma_lex_irreflexive(front + x);
        order::lemma_lex_irreflexive(x);
    } else {
        order::lemma_lex_prefix(front, y, x);
        order::lemma_lex_asymmetric(front + y, front + x);
        order::lemma_lex_asymmetric(y, x);
        if front + x == front + y {
            order::lemma_lex_irreflexive(front + x);
        }
    }
}

} // verus!
