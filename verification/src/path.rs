//! Unix paths as character sequences: their components, joining, the final
//! file name, and component-wise prefixes.
//!
//! A component is written as a character sequence: the root is `/`, a
//! leading current directory is `.`, a parent directory is `..`, and every
//! other component is its own name (never empty, never `.`, never holding `/`).

use vstd::prelude::*;
use crate::text::char_views;

verus! {

/// The separator of path components.
pub open spec fn is_sep(c: char) -> bool {
    c == '/'
}

/// Whether a piece between separators is a component of its own: empty
/// pieces and `.` pieces are dropped.
pub open spec fn kept(piece: Seq<char>) -> bool {
    piece.len() > 0 && piece != seq!['.']
}

/// Adds the piece `cur` to `done` when it is kept.
pub open spec fn flush(done: Seq<Seq<char>>, cur: Seq<char>) -> Seq<Seq<char>> {
    if kept(cur) {
        done.push(cur)
    } else {
        done
    }
}

/// Reading `s` from the left: the components finished so far and the piece
/// being read.
pub open spec fn scan(s: Seq<char>) -> (Seq<Seq<char>>, Seq<char>)
    decreases s.len(),
{
    if s.len() == 0 {
        (seq![], seq![])
    } else {
        let (done, cur) = scan(s.drop_last());
        if is_sep(s.last()) {
            (flush(done, cur), seq![])
        } else {
            (done, cur.push(s.last()))
        }
    }
}

/// The components of `s` that come from its pieces between separators.
pub open spec fn body_components(s: Seq<char>) -> Seq<Seq<char>> {
    flush(scan(s).0, scan(s).1)
}

/// Whether `s` is absolute: it starts at the root.
pub open spec fn is_absolute(s: Seq<char>) -> bool {
    s.len() > 0 && is_sep(s[0])
}

/// Whether `s` starts with the current directory (`.` alone or `./...`).
pub open spec fn leads_with_cur_dir(s: Seq<char>) -> bool {
    !is_absolute(s) && s.len() > 0 && s[0] == '.' && (s.len() == 1 || is_sep(s[1]))
}

/// The components of the path `s`, as `Path::components` yields them on Unix.
pub open spec fn components(s: Seq<char>) -> Seq<Seq<char>> {
    let head: Seq<Seq<char>> = if is_absolute(s) {
        seq![seq!['/']]
    } else if leads_with_cur_dir(s) {
        seq![seq!['.']]
    } else {
        seq![]
    };
    head + body_components(s)
}

/// Whether a component is a name (not the root, `.` or `..`).
pub open spec fn is_name(c: Seq<char>) -> bool {
    c != seq!['/'] && c != seq!['.'] && c != seq!['.', '.']
}

/// The final component of `s` when it is a name (`Path::file_name`).
pub open spec fn file_name(s: Seq<char>) -> Option<Seq<char>> {
    let c = components(s);
    if c.len() > 0 && is_name(c.last()) {
        Some(c.last())
    } else {
        None
    }
}

/// Whether `a` is a prefix of `b`.
pub open spec fn is_prefix<A>(a: Seq<A>, b: Seq<A>) -> bool {
    a.len() <= b.len() && b.subrange(0, a.len() as int) == a
}

/// Whether `base` is a prefix of `p` in whole components (`Path::starts_with`).
pub open spec fn starts_with(p: Seq<char>, base: Seq<char>) -> bool {
    is_prefix(components(base), components(p))
}

/// `base` joined with `p` (`Path::join`): an absolute `p` replaces `base`;
/// otherwise `p` follows `base`, with a separator between them when `base`
/// is not empty and does not end with one.
pub open spec fn join(base: Seq<char>, p: Seq<char>) -> Seq<char> {
    if is_absolute(p) {
        p
    } else if base.len() > 0 && !is_sep(base.last()) {
        base.push('/') + p
    } else {
        base + p
    }
}

/// Whether `p` lies within `base`: the components of `base` are a prefix of
/// those of `p`, and no component of `p` past them is `..`, so that
/// resolving `..` never leads out of `base`.
pub open spec fn lies_within(p: Seq<char>, base: Seq<char>) -> bool {
    let cb = components(base);
    let cp = components(p);
    &&& is_prefix(cb, cp)
    &&& forall|i: int| cb.len() <= i < cp.len() ==> #[trigger] cp[i] != seq!['.', '.']
}

/// One step of resolving `..` lexically: `..` removes the name before it,
/// stays at the root, and is kept when there is nothing to remove.
pub open spec fn resolve_step(acc: Seq<Seq<char>>, c: Seq<char>) -> Seq<Seq<char>> {
    if c == seq!['.', '.'] && acc.len() > 0 && is_name(acc.last()) {
        acc.drop_last()
    } else if c == seq!['.', '.'] && acc.len() > 0 && acc.last() == seq!['/'] {
        acc
    } else {
        acc.push(c)
    }
}

/// Components with `..` resolved lexically, from the left.
pub open spec fn resolved(cs: Seq<Seq<char>>) -> Seq<Seq<char>>
    decreases cs.len(),
{
    if cs.len() == 0 {
        seq![]
    } else {
        resolve_step(resolved(cs.drop_last()), cs.last())
    }
}

/// Whether two character sequences are equal.
pub fn chars_equal(a: &[char], b: &[char]) -> (r: bool)
    ensures
        r == (a@ == b@),
{
    if a.len() != b.len() {
        return false;
    }
    let mut i: usize = 0;
    while i < a.len()
        invariant
            a@.len() == b@.len(),
            i <= a@.len(),
            forall|k: int| 0 <= k < i ==> a@[k] == b@[k],
        decreases a.len() - i,
    {
        if a[i] != b[i] {
            return false;
        }
        i = i + 1;
    }
    assert(a@ =~= b@);
    true
}

fn single(c: char) -> (v: Vec<char>)
    ensures
        v@ == seq![c],
{
    let mut v: Vec<char> = Vec::new();
    v.push(c);
    assert(v@ =~= seq![c]);
    v
}

fn is_kept(piece: &Vec<char>) -> (r: bool)
    ensures
        r == kept(piece@),
{
    if piece.len() == 0 {
        return false;
    }
    if piece.len() == 1 && piece[0] == '.' {
        assert(piece@ =~= seq!['.']);
        return false;
    }
    assert(piece@ != seq!['.']) by {
        if piece@ == seq!['.'] {
            assert(piece@.len() == 1 && piece@[0] == '.');
        }
    }
    true
}

/// The components of the path `s`, as `Path::components` yields them on Unix.
pub fn components_of(s: &[char]) -> (c: Vec<Vec<char>>)
    ensures
        char_views(c@) == components(s@),
{
    let n = s.len();
    let mut head: Vec<Vec<char>> = Vec::new();
    if n > 0 && s[0] == '/' {
        head.push(single('/'));
    } else if n > 0 && s[0] == '.' && (n == 1 || s[1] == '/') {
        head.push(single('.'));
    }
    let ghost hv = char_views(head@);
    let mut done: Vec<Vec<char>> = Vec::new();
    let mut cur: Vec<char> = Vec::new();
    let mut i: usize = 0;
    assert(s@.subrange(0, 0) =~= Seq::<char>::empty());
    assert(char_views(done@) =~= Seq::<Seq<char>>::empty());
    while i < n
        invariant
            n == s@.len(),
            i <= n,
            (char_views(done@), cur@) == scan(s@.subrange(0, i as int)),
        decreases n - i,
    {
        let ghost pre = s@.subrange(0, i as int);
        assert(s@.subrange(0, i + 1).drop_last() =~= pre);
        if s[i] == '/' {
            if is_kept(&cur) {
                let ghost d = char_views(done@);
                let piece = cur;
                done.push(piece);
                assert(char_views(done@) =~= d.push(piece@));
            }
            cur = Vec::new();
        } else {
            cur.push(s[i]);
        }
        i = i + 1;
    }
    assert(s@.subrange(0, n as int) =~= s@);
    if is_kept(&cur) {
        let ghost d = char_views(done@);
        let piece = cur;
        done.push(piece);
        assert(char_views(done@) =~= d.push(piece@));
    }
    let ghost body = char_views(done@);
    let mut all = head;
    all.append(&mut done);
    proof {
        if n > 0 && s@[0] == '/' {
            assert(hv =~= seq![seq!['/']]);
        } else if leads_with_cur_dir(s@) {
            assert(hv =~= seq![seq!['.']]);
        } else {
            assert(hv =~= Seq::<Seq<char>>::empty());
        }
        assert(hv =~= if is_absolute(s@) {
            seq![seq!['/']]
        } else if leads_with_cur_dir(s@) {
            seq![seq!['.']]
        } else {
            seq![]
        });
        assert(char_views(all@) =~= hv + body);
    }
    all
}

/// `base` joined with `p`, as `Path::join` does.
pub fn join_chars(base: &[char], p: &[char]) -> (r: Vec<char>)
    ensures
        r@ == join(base@, p@),
{
    let mut r: Vec<char> = Vec::new();
    if p.len() > 0 && p[0] == '/' {
        r.extend_from_slice(p);
        assert(r@ =~= p@);
        return r;
    }
    r.extend_from_slice(base);
    if base.len() > 0 && base[base.len() - 1] != '/' {
        r.push('/');
    }
    r.extend_from_slice(p);
    r
}

/// Whether the components of `a` are a prefix of those of `b`.
pub fn components_prefix(a: &Vec<Vec<char>>, b: &Vec<Vec<char>>) -> (r: bool)
    ensures
        r == is_prefix(char_views(a@), char_views(b@)),
{
    if a.len() > b.len() {
        return false;
    }
    let mut i: usize = 0;
    while i < a.len()
        invariant
            a.len() <= b.len(),
            i <= a.len(),
            forall|k: int| 0 <= k < i ==> char_views(a@)[k] == char_views(b@)[k],
        decreases a.len() - i,
    {
        if !chars_equal(&a[i], &b[i]) {
            assert(char_views(b@).subrange(0, a.len() as int)[i as int] != char_views(a@)[i as int]);
            return false;
        }
        i = i + 1;
    }
    assert(char_views(b@).subrange(0, char_views(a@).len() as int) =~= char_views(a@));
    true
}

/// Whether `base` is a prefix of `p` in whole components (`Path::starts_with`).
pub fn path_starts_with(p: &[char], base: &[char]) -> (r: bool)
    ensures
        r == starts_with(p@, base@),
{
    let cp = components_of(p);
    let cb = components_of(base);
    components_prefix(&cb, &cp)
}

/// Whether the components `a` are a prefix of `b` with no `..` in `b` past them.
pub fn components_within(a: &Vec<Vec<char>>, b: &Vec<Vec<char>>) -> (r: bool)
    ensures
        r == (is_prefix(char_views(a@), char_views(b@)) && forall|i: int|
            a@.len() <= i < b@.len() ==> #[trigger] char_views(b@)[i] != seq!['.', '.']),
{
    if !components_prefix(a, b) {
        return false;
    }
    let mut i: usize = a.len();
    while i < b.len()
        invariant
            a@.len() <= i <= b@.len(),
            forall|k: int| a@.len() <= k < i ==> #[trigger] char_views(b@)[k] != seq!['.', '.'],
        decreases b.len() - i,
    {
        let c = &b[i];
        assert(char_views(b@)[i as int] == c@);
        if c.len() == 2 && c[0] == '.' && c[1] == '.' {
            assert(c@ =~= seq!['.', '.']);
            return false;
        }
        assert(c@ != seq!['.', '.']) by {
            if c@ == seq!['.', '.'] {
                assert(c@.len() == 2 && c@[0] == '.' && c@[1] == '.');
            }
        }
        i = i + 1;
    }
    true
}

/// Whether `p` lies within `base` (see `lies_within`).
pub fn path_within(p: &[char], base: &[char]) -> (r: bool)
    ensures
        r == lies_within(p@, base@),
{
    let cp = components_of(p);
    let cb = components_of(base);
    components_within(&cb, &cp)
}

/// The final component of `s` when it is a name (`Path::file_name`).
pub fn file_name_of(s: &[char]) -> (r: Option<Vec<char>>)
    ensures
        match r {
            Some(v) => file_name(s@) == Some(v@),
            None => file_name(s@) is None,
        },
{
    let mut c = components_of(s);
    let ghost cv = char_views(c@);
    match c.pop() {
        None => None,
        Some(last) => {
            assert(cv.last() == last@);
            let is_root = last.len() == 1 && last[0] == '/';
            let is_cur = last.len() == 1 && last[0] == '.';
            let is_parent = last.len() == 2 && last[0] == '.' && last[1] == '.';
            if is_root || is_cur || is_parent {
                proof {
                    if is_root {
                        assert(last@ =~= seq!['/']);
                    } else if is_cur {
                        assert(last@ =~= seq!['.']);
                    } else {
                        assert(last@ =~= seq!['.', '.']);
                    }
                }
                None
            } else {
                assert(is_name(last@)) by {
                    if last@ == seq!['/'] || last@ == seq!['.'] {
                        assert(last@.len() == 1);
                    }
                    if last@ == seq!['.', '.'] {
                        assert(last@.len() == 2);
                    }
                }
                Some(last)
            }
        },
    }
}


/// Reading `b` after a prefix `x` that ends between pieces continues from
/// the components of `x`.
proof fn lemma_scan_append(x: Seq<char>, b: Seq<char>)
    requires
        scan(x).1 == Seq::<char>::empty(),
    ensures
        scan(x + b) == (scan(x).0 + scan(b).0, scan(b).1),
    decreases b.len(),
{
    if b.len() == 0 {
        assert(x + b =~= x);
        assert(scan(x).0 + Seq::<Seq<char>>::empty() =~= scan(x).0);
    } else {
        lemma_scan_append(x, b.drop_last());
        assert((x + b).drop_last() =~= x + b.drop_last());
        assert((x + b).last() == b.last());
        let (d, c) = scan(b.drop_last());
        if is_sep(b.last()) {
            assert(flush(scan(x).0 + d, c) =~= scan(x).0 + flush(d, c));
        } else {
        }
    }
}

/// Joining a relative path onto `base` keeps the components of `base` in
/// front: the result starts with `base`.
pub proof fn lemma_join_relative_starts_with_base(base: Seq<char>, p: Seq<char>)
    requires
        !is_absolute(p),
    ensures
        starts_with(join(base, p), base),
        base.len() > 0 ==> components(join(base, p)) == components(base) + body_components(p),
{
    let j = join(base, p);
    if base.len() == 0 {
        assert(scan(base) == (Seq::<Seq<char>>::empty(), Seq::<char>::empty()));
        assert(components(base) =~= Seq::<Seq<char>>::empty());
        assert(components(j).subrange(0, 0) =~= components(base));
    } else if !is_sep(base.last()) {
        let x = base.push('/');
        assert(x.drop_last() =~= base);
        lemma_scan_append(x, p);
        assert(j =~= x + p);
        assert(body_components(j) =~= body_components(base) + body_components(p));
        assert(is_absolute(j) == is_absolute(base));
        assert(leads_with_cur_dir(j) == leads_with_cur_dir(base));
        assert(components(j) =~= components(base) + body_components(p));
        assert(components(j).subrange(0, components(base).len() as int) =~= components(base));
    } else {
        assert(base =~= base.drop_last().push(base.last()));
        assert(scan(base).1 == Seq::<char>::empty());
        lemma_scan_append(base, p);
        assert(j =~= base + p);
        assert(body_components(base) == scan(base).0);
        assert(body_components(j) =~= body_components(base) + body_components(p));
        assert(is_absolute(j) == is_absolute(base));
        assert(leads_with_cur_dir(j) == leads_with_cur_dir(base));
        assert(components(j) =~= components(base) + body_components(p));
        assert(components(j).subrange(0, components(base).len() as int) =~= components(base));
    }
}

/// Whether `c` holds no separator.
pub open spec fn no_sep(c: Seq<char>) -> bool {
    forall|i: int| 0 <= i < c.len() ==> !is_sep(#[trigger] c[i])
}

/// The pieces read from `s` hold no separator, and the finished ones are kept.
proof fn lemma_scan_pieces(s: Seq<char>)
    ensures
        no_sep(scan(s).1),
        forall|k: int| 0 <= k < scan(s).0.len() ==> no_sep(#[trigger] scan(s).0[k]) && kept(scan(s).0[k]),
    decreases s.len(),
{
    if s.len() > 0 {
        lemma_scan_pieces(s.drop_last());
        let (d, c) = scan(s.drop_last());
        if !is_sep(s.last()) {
            assert forall|i: int| 0 <= i < c.push(s.last()).len() implies !is_sep(#[trigger] c.push(s.last())[i]) by {
                if i < c.len() {
                    assert(c.push(s.last())[i] == c[i]);
                }
            }
        }
    }
}

/// A file name holds no separator and is not empty.
pub(crate) proof fn lemma_file_name_no_sep(s: Seq<char>)
    ensures
        file_name(s) matches Some(n) ==> no_sep(n) && n.len() > 0,
{
    lemma_scan_pieces(s);
    let (d, c) = scan(s);
    let body = body_components(s);
    assert forall|k: int| 0 <= k < body.len() implies no_sep(#[trigger] body[k]) && kept(body[k]) by {
        if k < d.len() {
            assert(body[k] == d[k]);
        }
    }
    let comps = components(s);
    if file_name(s) is Some && body.len() == 0 {
        assert(comps.last() == seq!['/'] || comps.last() == seq!['.']);
    }
    if body.len() > 0 {
        assert(comps.last() == body.last());
    }
}

/// A piece without separators reads as one unfinished piece.
proof fn lemma_scan_one_piece(b: Seq<char>)
    requires
        no_sep(b),
    ensures
        scan(b) == (Seq::<Seq<char>>::empty(), b),
    decreases b.len(),
{
    if b.len() > 0 {
        lemma_scan_one_piece(b.drop_last());
        assert(b.drop_last().push(b.last()) =~= b);
    }
}

/// Joining a name without separators onto a directory gives a path with
/// that file name.
pub(crate) proof fn lemma_file_name_of_join(dir: Seq<char>, b: Seq<char>)
    requires
        no_sep(b),
        is_name(b),
        b.len() > 0,
    ensures
        file_name(join(dir, b)) == Some(b),
{
    lemma_scan_one_piece(b);
    let j = join(dir, b);
    assert(!is_absolute(b));
    assert(kept(b));
    if dir.len() == 0 {
        assert(j == b);
        assert(body_components(b) =~= seq![b]);
        assert(!leads_with_cur_dir(b)) by {
            if b.len() > 1 {
                assert(!is_sep(b[1]));
            } else {
                assert(b =~= seq![b[0]]);
            }
        }
        assert(components(b) =~= seq![b]);
    } else {
        let x = if is_sep(dir.last()) { dir } else { dir.push('/') };
        assert(j =~= x + b);
        assert(x.len() > 0 && is_sep(x.last()));
        assert(x =~= x.drop_last().push(x.last()));
        assert(scan(x).1 == Seq::<char>::empty());
        lemma_scan_append(x, b);
        assert(scan(j) == (scan(x).0, b));
        assert(body_components(j) == scan(x).0.push(b));
        assert(components(j).last() == b);
    }
}

/// Resolving `..` in components that continue with no `..` only appends them.
pub proof fn lemma_resolved_append(cb: Seq<Seq<char>>, rest: Seq<Seq<char>>)
    requires
        forall|i: int| 0 <= i < rest.len() ==> #[trigger] rest[i] != seq!['.', '.'],
    ensures
        resolved(cb + rest) == resolved(cb) + rest,
    decreases rest.len(),
{
    if rest.len() == 0 {
        assert(cb + rest =~= cb);
        assert(resolved(cb) + rest =~= resolved(cb));
    } else {
        lemma_resolved_append(cb, rest.drop_last());
        assert((cb + rest).drop_last() =~= cb + rest.drop_last());
        assert((cb + rest).last() == rest.last());
        assert(rest.last() == rest[rest.len() - 1]);
        assert((resolved(cb) + rest.drop_last()).push(rest.last()) =~= resolved(cb) + rest);
    }
}

/// A path that lies within `base` still lies under it once `..` is resolved:
/// its resolved components are those of `base`, resolved, followed by the rest.
pub proof fn lemma_within_resolves_under(p: Seq<char>, base: Seq<char>)
    requires
        lies_within(p, base),
    ensures
        resolved(components(p)) == resolved(components(base)) + components(p).skip(
            components(base).len() as int,
        ),
        is_prefix(resolved(components(base)), resolved(components(p))),
{
    let cb = components(base);
    let cp = components(p);
    let rest = cp.skip(cb.len() as int);
    assert(cp =~= cb + rest);
    assert forall|i: int| 0 <= i < rest.len() implies #[trigger] rest[i] != seq!['.', '.'] by {
        assert(rest[i] == cp[i + cb.len()]);
    }
    lemma_resolved_append(cb, rest);
    assert((resolved(cb) + rest).subrange(0, resolved(cb).len() as int) =~= resolved(cb));
}

/// Joining a relative path without `..` onto `base` gives a path within `base`.
pub proof fn lemma_join_relative_within(base: Seq<char>, p: Seq<char>)
    requires
        !is_absolute(p),
        forall|i: int| 0 <= i < components(p).len() ==> #[trigger] components(p)[i] != seq!['.', '.'],
    ensures
        lies_within(join(base, p), base),
{
    lemma_join_relative_starts_with_base(base, p);
    let j = join(base, p);
    let cb = components(base);
    let cj = components(j);
    let head: Seq<Seq<char>> = if is_absolute(p) {
        seq![seq!['/']]
    } else if leads_with_cur_dir(p) {
        seq![seq!['.']]
    } else {
        seq![]
    };
    assert(components(p) == head + body_components(p));
    if base.len() == 0 {
        assert(cb =~= Seq::<Seq<char>>::empty()) by {
            assert(scan(base) == (Seq::<Seq<char>>::empty(), Seq::<char>::empty()));
        }
        assert(j == p);
    } else {
        assert(cj == cb + body_components(p));
        assert forall|i: int| cb.len() <= i < cj.len() implies #[trigger] cj[i] != seq!['.', '.'] by {
            assert(cj[i] == body_components(p)[i - cb.len()]);
            assert(components(p)[i - cb.len() + head.len()] == body_components(p)[i - cb.len()]);
        }
    }
}

} // verus!
