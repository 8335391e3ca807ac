//! Paths as text: `/`-separated segments, with the rules the operating system
//! applies to them.
//!
//! A segment that is empty or `.` names nothing, except at the very start: a
//! path that begins with `/` is rooted, and one that begins with `.` names the
//! current directory first. These functions read a path the way the standard
//! library's `Path` does on a system whose only separator is `/`.

use crate::text;
use vstd::prelude::*;

verus! {

/// The segment that names the directory it stands in.
pub open spec fn dot() -> Seq<char> {
    seq!['.']
}

/// The segment that names the parent directory.
pub open spec fn dot_dot() -> Seq<char> {
    seq!['.', '.']
}

/// The path that names the root directory.
pub open spec fn root() -> Seq<char> {
    seq!['/']
}

/// The segments of a path.
pub open spec fn segments(p: Seq<char>) -> Seq<Seq<char>> {
    text::split(p, '/')
}

/// Whether a segment names something: it is neither empty nor `.`.
pub open spec fn is_plain(segment: Seq<char>) -> bool {
    segment.len() > 0 && segment != dot()
}

/// `parts` without the segments at its end that name nothing.
pub open spec fn trim_tail(parts: Seq<Seq<char>>) -> Seq<Seq<char>>
    decreases parts.len(),
{
    if parts.len() > 0 && !is_plain(parts.last()) {
        trim_tail(parts.drop_last())
    } else {
        parts
    }
}

/// The first segment of `parts` and the rest up to the last one that names
/// something.
pub open spec fn body(parts: Seq<Seq<char>>) -> Seq<Seq<char>> {
    seq![parts[0]] + trim_tail(parts.drop_first())
}

/// The text of a path whose body is `parts`. A single empty segment is all that
/// is left of a rooted path when nothing follows the root.
pub open spec fn body_text(parts: Seq<Seq<char>>) -> Seq<char> {
    if parts.len() == 1 && parts[0].len() == 0 {
        root()
    } else {
        text::join(parts, '/')
    }
}

/// The components of a path: its root or first segment, then every later
/// segment that names something.
pub open spec fn components(p: Seq<char>) -> Seq<Seq<char>> {
    let parts = segments(p);
    let head = if parts[0].len() > 0 {
        seq![parts[0]]
    } else if parts.len() > 1 {
        seq![root()]
    } else {
        Seq::<Seq<char>>::empty()
    };
    head + parts.drop_first().filter(|x: Seq<char>| is_plain(x))
}

/// Whether `p` is `base` or lies beneath it, component by component.
pub open spec fn is_within(p: Seq<char>, base: Seq<char>) -> bool {
    components(base).is_prefix_of(components(p))
}

/// The last component of a path, when it is a name.
pub open spec fn file_name_of(p: Seq<char>) -> Option<Seq<char>> {
    let last = body(segments(p)).last();
    if !is_plain(last) || last == dot_dot() {
        None
    } else {
        Some(last)
    }
}

/// The path without its last component, when it has one.
pub open spec fn parent_of(p: Seq<char>) -> Option<Seq<char>> {
    let parts = body(segments(p));
    if parts.len() == 1 {
        if parts[0].len() == 0 {
            None
        } else {
            Some(Seq::<char>::empty())
        }
    } else {
        Some(body_text(body(parts.drop_last())))
    }
}

/// A file name cut at its last dot: the stem, and the extension when there is
/// one. A dot at the very start does not begin an extension.
pub open spec fn stem_and_extension(name: Seq<char>) -> (Seq<char>, Option<Seq<char>>) {
    let pieces = text::split(name, '.');
    if pieces.len() == 1 || (pieces.len() == 2 && pieces[0].len() == 0) {
        (name, None)
    } else {
        (text::join(pieces.drop_last(), '.'), Some(pieces.last()))
    }
}

/// `rel` placed beneath `base`. A rooted `rel` replaces `base`.
pub open spec fn joined(base: Seq<char>, rel: Seq<char>) -> Seq<char> {
    if rel.len() > 0 && rel[0] == '/' {
        rel
    } else if base.len() > 0 && base.last() != '/' {
        base.push('/') + rel
    } else {
        base + rel
    }
}

/// `parts` from its `k`-th segment that names something, counted from zero.
pub open spec fn from_plain(parts: Seq<Seq<char>>, k: nat) -> Seq<Seq<char>>
    decreases parts.len(),
{
    if parts.len() == 0 {
        parts
    } else if !is_plain(parts[0]) {
        from_plain(parts.drop_first(), k)
    } else if k == 0 {
        parts
    } else {
        from_plain(parts.drop_first(), (k - 1) as nat)
    }
}

/// What is left of `p` beneath `base`, when `p` is within `base`.
pub open spec fn stripped(p: Seq<char>, base: Seq<char>) -> Option<Seq<char>> {
    let n = components(base).len();
    if !is_within(p, base) {
        None
    } else if n == 0 {
        if p.len() == 0 {
            Some(p)
        } else {
            Some(body_text(body(segments(p))))
        }
    } else {
        Some(text::join(trim_tail(from_plain(segments(p).drop_first(), (n - 1) as nat)), '/'))
    }
}

/// `p` with its last component replaced by `name`, or with `name` added where
/// the last component is not a name.
pub open spec fn with_name(p: Seq<char>, name: Seq<char>) -> Seq<char> {
    if file_name_of(p) is Some {
        joined(parent_of(p)->0, name)
    } else {
        joined(p, name)
    }
}

/// Whether every segment of a path names something.
pub open spec fn is_plain_path(p: Seq<char>) -> bool {
    forall|i: int| 0 <= i < segments(p).len() ==> is_plain(#[trigger] segments(p)[i])
}

/// The last component of a path of plain segments is its last segment, and its
/// parent is made of the others.
pub proof fn lemma_plain_path(p: Seq<char>)
    requires
        is_plain_path(p),
    ensures
        p.len() > 0,
        segments(p).last() != dot_dot() ==> file_name_of(p) == Some(segments(p).last()),
        parent_of(p) == Some(text::join(segments(p).drop_last(), '/')),
{
    let parts = segments(p);
    text::lemma_split_pieces(p, '/');
    assert(is_plain(parts[0]));
    let tail = parts.drop_first();
    assert(trim_tail(tail) == tail) by {
        if tail.len() > 0 {
            assert(tail.last() == parts[parts.len() - 1]);
        }
    }
    assert(body(parts) =~= parts);
    assert(parts.last() == parts[parts.len() - 1]);
    if parts.len() == 1 {
        assert(parts.drop_last() =~= Seq::<Seq<char>>::empty());
    } else {
        let front = parts.drop_last();
        let inner = front.drop_first();
        assert(trim_tail(inner) == inner) by {
            if inner.len() > 0 {
                assert(inner.last() == parts[parts.len() - 2]);
            }
        }
        assert(body(front) =~= front);
        assert(front[0] == parts[0]);
    }
}

/// Whether a segment names something.
pub fn plain(segment: &[char]) -> (r: bool)
    ensures
        r == is_plain(segment@),
{
    if segment.len() == 0 {
        return false;
    }
    if segment.len() == 1 && segment[0] == '.' {
        proof {
            assert(segment@ =~= dot());
        }
        return false;
    }
    proof {
        if segment@ == dot() {
            assert(segment@[0] == '.');
        }
    }
    true
}

/// Whether a segment is `..`.
pub fn names_parent(segment: &[char]) -> (r: bool)
    ensures
        r == (segment@ == dot_dot()),
{
    let r = segment.len() == 2 && segment[0] == '.' && segment[1] == '.';
    proof {
        if r {
            assert(segment@ =~= dot_dot());
        }
    }
    r
}

/// How many segments, from the first, make up the body of `parts`.
fn body_len(parts: &[Vec<char>]) -> (n: usize)
    requires
        parts@.len() >= 1,
    ensures
        1 <= n <= parts@.len(),
        text::views(parts@).take(n as int) == body(text::views(parts@)),
{
    let ghost all = text::views(parts@);
    let mut n: usize = parts.len();
    proof {
        assert(all.subrange(1, n as int) =~= all.drop_first());
    }
    while n > 1 && !plain(&parts[n - 1])
        invariant
            1 <= n <= parts@.len(),
            all == text::views(parts@),
            trim_tail(all.subrange(1, n as int)) == trim_tail(all.drop_first()),
        decreases n,
    {
        proof {
            assert(all.subrange(1, n as int).last() == parts@[n - 1]@);
            assert(all.subrange(1, n as int).drop_last() =~= all.subrange(1, n - 1));
        }
        n = n - 1;
    }
    proof {
        let tail = all.subrange(1, n as int);
        if n > 1 {
            assert(tail.last() == parts@[n - 1]@);
        }
        assert(trim_tail(tail) == tail);
        assert(all.take(n as int) =~= seq![all[0]] + tail);
    }
    n
}

/// A copy of the first `n` pieces of `parts`.
fn copy_front(parts: &[Vec<char>], n: usize) -> (r: Vec<Vec<char>>)
    requires
        n <= parts@.len(),
    ensures
        text::views(r@) == text::views(parts@).take(n as int),
{
    copy_pieces(parts, 0, n)
}

/// A copy of the pieces `from..to` of `parts`.
pub fn copy_pieces(parts: &[Vec<char>], from: usize, to: usize) -> (r: Vec<Vec<char>>)
    requires
        from <= to <= parts@.len(),
    ensures
        text::views(r@) == text::views(parts@).subrange(from as int, to as int),
{
    let mut out: Vec<Vec<char>> = Vec::new();
    let mut i: usize = from;
    while i < to
        invariant
            from <= i <= to <= parts@.len(),
            text::views(out@) =~= text::views(parts@).subrange(from as int, i as int),
        decreases to - i,
    {
        let ghost before = out@;
        let piece = text::copy_range(&parts[i], 0, parts[i].len());
        proof {
            assert(piece@ =~= parts@[i as int]@);
        }
        out.push(piece);
        proof {
            assert(text::views(out@) =~= text::views(before).push(parts@[i as int]@));
        }
        i = i + 1;
    }
    out
}

/// The text of a path whose body is `parts`.
fn body_chars(parts: &[Vec<char>]) -> (r: Vec<char>)
    requires
        parts@.len() >= 1,
    ensures
        r@ == body_text(text::views(parts@)),
{
    if parts.len() == 1 && parts[0].len() == 0 {
        let mut out: Vec<char> = Vec::new();
        out.push('/');
        proof {
            assert(out@ =~= root());
        }
        out
    } else {
        text::join_chars(parts, '/')
    }
}

/// The last component of a path, when it is a name.
pub fn file_name_chars(p: &[char]) -> (r: Option<Vec<char>>)
    ensures
        r is Some == file_name_of(p@) is Some,
        r is Some ==> r->0@ == file_name_of(p@)->0,
{
    let parts = text::split_chars(p, '/');
    let n = body_len(&parts);
    proof {
        assert(text::views(parts@).take(n as int).last() == parts@[n - 1]@);
    }
    if !plain(&parts[n - 1]) || names_parent(&parts[n - 1]) {
        None
    } else {
        proof {
            assert(parts@[n - 1]@.subrange(0, parts@[n - 1]@.len() as int) =~= parts@[n - 1]@);
        }
        Some(text::copy_range(&parts[n - 1], 0, parts[n - 1].len()))
    }
}

/// The path without its last component, when it has one.
pub fn parent_chars(p: &[char]) -> (r: Option<Vec<char>>)
    ensures
        r is Some == parent_of(p@) is Some,
        r is Some ==> r->0@ == parent_of(p@)->0,
{
    let parts = text::split_chars(p, '/');
    let n = body_len(&parts);
    let ghost all = text::views(parts@);
    if n == 1 {
        proof {
            assert(all.take(1)[0] == parts@[0]@);
        }
        if parts[0].len() == 0 {
            None
        } else {
            Some(Vec::new())
        }
    } else {
        let front = copy_front(&parts, n - 1);
        proof {
            assert(all.take(n as int).drop_last() =~= all.take(n - 1));
            assert(front@.len() == text::views(front@).len());
        }
        let m = body_len(&front);
        let kept = copy_front(&front, m);
        proof {
            assert(kept@.len() == text::views(kept@).len());
        }
        Some(body_chars(&kept))
    }
}

/// A file name cut at its last dot.
pub fn stem_and_extension_chars(name: &[char]) -> (r: (Vec<char>, Option<Vec<char>>))
    ensures
        r.0@ == stem_and_extension(name@).0,
        r.1 is Some == stem_and_extension(name@).1 is Some,
        r.1 is Some ==> r.1->0@ == stem_and_extension(name@).1->0,
{
    let pieces = text::split_chars(name, '.');
    let ghost all = text::views(pieces@);
    proof {
        assert(all[0] == pieces@[0]@);
        assert(all.last() == pieces@[pieces@.len() - 1]@);
    }
    if pieces.len() == 1 || (pieces.len() == 2 && pieces[0].len() == 0) {
        proof {
            assert(name@.subrange(0, name@.len() as int) =~= name@);
        }
        (text::copy_range(name, 0, name.len()), None)
    } else {
        let front = copy_front(&pieces, pieces.len() - 1);
        proof {
            assert(all.take(all.len() - 1) =~= all.drop_last());
        }
        let stem = text::join_chars(&front, '.');
        let last = &pieces[pieces.len() - 1];
        proof {
            assert(last@.subrange(0, last@.len() as int) =~= last@);
        }
        (stem, Some(text::copy_range(last, 0, last.len())))
    }
}

/// `rel` placed beneath `base`.
pub fn join_path_chars(base: &[char], rel: &[char]) -> (r: Vec<char>)
    ensures
        r@ == joined(base@, rel@),
{
    let mut out: Vec<char> = Vec::new();
    if rel.len() > 0 && rel[0] == '/' {
        text::extend_chars(&mut out, rel);
        proof {
            assert(out@ =~= rel@);
        }
    } else {
        text::extend_chars(&mut out, base);
        proof {
            assert(out@ =~= base@);
        }
        if base.len() > 0 && base[base.len() - 1] != '/' {
            out.push('/');
        }
        text::extend_chars(&mut out, rel);
    }
    out
}

/// `rel` placed beneath `base`.
pub fn join_path(base: &str, rel: &str) -> (r: String)
    ensures
        r@ == joined(base@, rel@),
{
    let base = text::to_chars(base);
    let rel = text::to_chars(rel);
    text::from_chars(&join_path_chars(&base, &rel))
}

/// The last component of a path, when it is a name.
pub fn file_name(p: &str) -> (r: Option<String>)
    ensures
        r is Some == file_name_of(p@) is Some,
        r is Some ==> r->0@ == file_name_of(p@)->0,
{
    let p = text::to_chars(p);
    match file_name_chars(&p) {
        Some(name) => Some(text::from_chars(&name)),
        None => None,
    }
}

/// The path without its last component, when it has one.
pub fn parent(p: &str) -> (r: Option<String>)
    ensures
        r is Some == parent_of(p@) is Some,
        r is Some ==> r->0@ == parent_of(p@)->0,
{
    let p = text::to_chars(p);
    match parent_chars(&p) {
        Some(up) => Some(text::from_chars(&up)),
        None => None,
    }
}

/// `p` with its last component replaced by `name`.
pub fn with_file_name(p: &str, name: &str) -> (r: String)
    ensures
        r@ == with_name(p@, name@),
{
    let p = text::to_chars(p);
    let name = text::to_chars(name);
    if file_name_chars(&p).is_some() {
        match parent_chars(&p) {
            Some(up) => text::from_chars(&join_path_chars(&up, &name)),
            None => text::from_chars(&name),
        }
    } else {
        text::from_chars(&join_path_chars(&p, &name))
    }
}

/// The components of a path.
pub fn components_chars(p: &[char]) -> (r: Vec<Vec<char>>)
    ensures
        text::views(r@) == components(p@),
{
    let parts = text::split_chars(p, '/');
    let ghost all = text::views(parts@);
    let ghost is_named = |x: Seq<char>| is_plain(x);
    let mut out: Vec<Vec<char>> = Vec::new();
    let ghost mut head: Seq<Seq<char>> = Seq::empty();
    if parts[0].len() > 0 {
        let first = text::copy_range(&parts[0], 0, parts[0].len());
        proof {
            assert(first@ =~= parts@[0]@);
            head = seq![all[0]];
        }
        out.push(first);
    } else if parts.len() > 1 {
        let mut first: Vec<char> = Vec::new();
        first.push('/');
        proof {
            assert(first@ =~= root());
            head = seq![root()];
        }
        out.push(first);
    }
    let mut i: usize = 1;
    proof {
        assert(text::views(out@) =~= head);
        assert(all.drop_first().take(0) =~= Seq::<Seq<char>>::empty());
        reveal(Seq::filter);
        assert(all.drop_first().take(0).filter(is_named) =~= Seq::<Seq<char>>::empty());
    }
    while i < parts.len()
        invariant
            1 <= i <= parts@.len(),
            all == text::views(parts@),
            is_named == (|x: Seq<char>| is_plain(x)),
            text::views(out@) =~= head + all.drop_first().take(i - 1).filter(is_named),
        decreases parts.len() - i,
    {
        let ghost before = out@;
        let ghost taken = all.drop_first().take(i as int);
        proof {
            reveal(Seq::filter);
            assert(taken.drop_last() =~= all.drop_first().take(i - 1));
            assert(taken.last() == parts@[i as int]@);
        }
        if plain(&parts[i]) {
            let piece = text::copy_range(&parts[i], 0, parts[i].len());
            proof {
                assert(piece@ =~= parts@[i as int]@);
            }
            out.push(piece);
            proof {
                assert(text::views(out@) =~= text::views(before).push(parts@[i as int]@));
            }
        }
        i = i + 1;
    }
    proof {
        assert(all.drop_first().take(i - 1) =~= all.drop_first());
        assert(all[0] == parts@[0]@);
    }
    out
}

/// Whether the components in `base` begin the components in `parts`.
fn begins_components(parts: &[Vec<char>], base: &[Vec<char>]) -> (r: bool)
    ensures
        r == text::views(base@).is_prefix_of(text::views(parts@)),
{
    let ghost b = text::views(base@);
    let ghost p = text::views(parts@);
    if base.len() > parts.len() {
        return false;
    }
    let mut i: usize = 0;
    while i < base.len()
        invariant
            i <= base@.len() <= parts@.len(),
            b == text::views(base@),
            p == text::views(parts@),
            forall|j: int| 0 <= j < i ==> b[j] == p[j],
        decreases base.len() - i,
    {
        if !text::same_chars(&base[i], &parts[i]) {
            proof {
                assert(b[i as int] != p[i as int]);
                assert(p.subrange(0, b.len() as int)[i as int] == p[i as int]);
            }
            return false;
        }
        i = i + 1;
    }
    true
}

/// Whether `p` is `base` or lies beneath it.
pub fn path_within(p: &str, base: &str) -> (r: bool)
    ensures
        r == is_within(p@, base@),
{
    let p = text::to_chars(p);
    let base = text::to_chars(base);
    let parts = components_chars(&p);
    let base_parts = components_chars(&base);
    begins_components(&parts, &base_parts)
}

/// What is left of `p` beneath `base`, when `p` is within `base`.
pub fn strip_base(p: &str, base: &str) -> (r: Option<String>)
    ensures
        r is Some == stripped(p@, base@) is Some,
        r is Some ==> r->0@ == stripped(p@, base@)->0,
{
    let p = text::to_chars(p);
    let base = text::to_chars(base);
    let parts = components_chars(&p);
    let base_parts = components_chars(&base);
    if !begins_components(&parts, &base_parts) {
        return None;
    }
    let pieces = text::split_chars(&p, '/');
    let ghost all = text::views(pieces@);
    proof {
        assert(text::views(base_parts@).len() == base_parts@.len());
    }
    if base_parts.len() == 0 {
        if p.len() == 0 {
            return Some(text::from_chars(&p));
        }
        let n = body_len(&pieces);
        let front = copy_front(&pieces, n);
        proof {
            assert(front@.len() == text::views(front@).len());
        }
        return Some(text::from_chars(&body_chars(&front)));
    }
    let ghost tail = all.drop_first();
    let wanted: usize = base_parts.len() - 1;
    let mut from: usize = 1;
    let mut skipped: usize = 0;
    proof {
        assert(tail.skip(0) =~= tail);
    }
    while from < pieces.len() && (!plain(&pieces[from]) || skipped < wanted)
        invariant
            1 <= from <= pieces@.len(),
            skipped <= wanted,
            all == text::views(pieces@),
            tail == all.drop_first(),
            from_plain(tail.skip(from - 1), (wanted - skipped) as nat) == from_plain(
                tail,
                wanted as nat,
            ),
        decreases pieces.len() - from,
    {
        proof {
            assert(tail.skip(from - 1)[0] == pieces@[from as int]@);
            assert(tail.skip(from - 1).drop_first() =~= tail.skip(from as int));
        }
        if plain(&pieces[from]) {
            skipped = skipped + 1;
        }
        from = from + 1;
    }
    proof {
        if from < pieces.len() {
            assert(tail.skip(from - 1)[0] == pieces@[from as int]@);
        }
    }
    let ghost rest = tail.skip(from - 1);
    let mut to: usize = pieces.len();
    proof {
        assert(all.subrange(from as int, to as int) =~= rest);
    }
    while to > from && !plain(&pieces[to - 1])
        invariant
            from <= to <= pieces@.len(),
            all == text::views(pieces@),
            trim_tail(all.subrange(from as int, to as int)) == trim_tail(rest),
        decreases to,
    {
        proof {
            assert(all.subrange(from as int, to as int).last() == pieces@[to - 1]@);
            assert(all.subrange(from as int, to as int).drop_last() =~= all.subrange(
                from as int,
                to - 1,
            ));
        }
        to = to - 1;
    }
    proof {
        let kept = all.subrange(from as int, to as int);
        if to > from {
            assert(kept.last() == pieces@[to - 1]@);
        }
        assert(trim_tail(kept) == kept);
    }
    let kept = copy_pieces(&pieces, from, to);
    Some(text::from_chars(&text::join_chars(&kept, '/')))
}

/// The last component of a path is the name behind its last separator.
pub proof fn lemma_last_name(dir: Seq<char>, name: Seq<char>)
    requires
        !name.contains('/'),
        is_plain(name),
        name != dot_dot(),
    ensures
        file_name_of(name) == Some(name),
        file_name_of(dir + "/"@ + name) == Some(name),
{
    reveal_strlit("/");
    text::lemma_split_plain(name, '/');
    assert(seq![name].drop_first() =~= Seq::<Seq<char>>::empty());
    assert(body(seq![name]).last() == name);
    assert(dir + "/"@ + name =~= dir.push('/') + name);
    text::lemma_split_append(dir, name, '/');
    text::lemma_split_pieces(dir, '/');
    let parts = segments(dir) + seq![name];
    let tail = parts.drop_first();
    assert(tail.last() == name);
    assert(trim_tail(tail) == tail);
    assert(body(parts).last() == name);
}

/// The components of a rooted path whose segments are all names are the root and
/// its segments.
pub proof fn lemma_rooted(p: Seq<char>)
    requires
        is_plain_path(p),
    ensures
        segments("/"@ + p) == seq![Seq::<char>::empty()] + segments(p),
        components("/"@ + p) == seq![root()] + segments(p),
{
    reveal_strlit("/");
    let nothing = Seq::<char>::empty();
    let is_named = |x: Seq<char>| is_plain(x);
    assert("/"@ + p =~= nothing.push('/') + p);
    text::lemma_split_append(nothing, p, '/');
    text::lemma_split_plain(nothing, '/');
    text::lemma_split_pieces(p, '/');
    let parts = seq![nothing] + segments(p);
    assert(parts.drop_first() =~= segments(p));
    lemma_all_kept(segments(p), is_named);
}

proof fn lemma_all_kept(s: Seq<Seq<char>>, keep: spec_fn(Seq<char>) -> bool)
    requires
        forall|i: int| 0 <= i < s.len() ==> keep(#[trigger] s[i]),
    ensures
        s.filter(keep) == s,
    decreases s.len(),
{
    reveal(Seq::filter);
    if s.len() > 0 {
        let front = s.drop_last();
        assert forall|i: int| 0 <= i < front.len() implies keep(#[trigger] front[i]) by {
            assert(front[i] == s[i]);
        }
        lemma_all_kept(front, keep);
        assert(keep(s[s.len() - 1]));
        assert(front.push(s.last()) =~= s);
    }
}

/// A path lies within another by whole names: `/a/bc` is not within `/a/b`.
pub proof fn law_paths_lie_within_by_whole_names(p: Seq<char>, base: Seq<char>)
    requires
        is_plain_path(p),
        is_plain_path(base),
    ensures
        is_within("/"@ + p, "/"@ + base) <==> segments(base).is_prefix_of(segments(p)),
        is_within("/"@ + p, "/"@ + base) <==> p == base || (base + "/"@).is_prefix_of(p),
{
    reveal_strlit("/");
    lemma_rooted(p);
    lemma_rooted(base);
    let a = segments(base);
    let b = segments(p);
    let x = components("/"@ + base);
    let y = components("/"@ + p);
    text::lemma_join_split(p, '/');
    text::lemma_join_split(base, '/');
    text::lemma_split_pieces(p, '/');
    text::lemma_split_pieces(base, '/');
    if x.is_prefix_of(y) {
        assert forall|i: int| 0 <= i < a.len() implies a[i] == b[i] by {
            assert(x[i + 1] == y.subrange(0, x.len() as int)[i + 1]);
        }
        assert(a =~= b.subrange(0, a.len() as int));
    }
    if a.is_prefix_of(b) {
        assert forall|i: int| 0 <= i < x.len() implies x[i] == y[i] by {
            if i > 0 {
                assert(a[i - 1] == b.subrange(0, a.len() as int)[i - 1]);
            }
        }
        assert(x =~= y.subrange(0, x.len() as int));
        if a.len() == b.len() {
            assert(a =~= b);
        } else {
            let more = b.skip(a.len() as int);
            assert(b =~= a + more);
            text::lemma_join_append(a, more, '/');
            assert(base + "/"@ =~= p.subrange(0, base.len() as int + 1));
        }
    }
    if (base + "/"@).is_prefix_of(p) {
        let rest = p.skip(base.len() as int + 1);
        assert(base + "/"@ =~= p.subrange(0, base.len() as int + 1));
        assert(base.push('/') =~= base + "/"@);
        assert(p =~= p.subrange(0, base.len() as int + 1) + rest);
        text::lemma_split_append(base, rest, '/');
        assert(a =~= b.subrange(0, a.len() as int));
    }
    if p == base {
        assert(a =~= b.subrange(0, a.len() as int));
    }
}

/// What lies behind as many names as there are in `a`.
proof fn lemma_from_plain(a: Seq<Seq<char>>, b: Seq<Seq<char>>)
    requires
        forall|i: int| 0 <= i < a.len() ==> is_plain(#[trigger] a[i]),
        b.len() > 0,
        is_plain(b[0]),
    ensures
        from_plain(a + b, a.len()) == b,
    decreases a.len(),
{
    if a.len() == 0 {
        assert(a + b =~= b);
    } else {
        let rest = a.drop_first();
        assert forall|i: int| 0 <= i < rest.len() implies is_plain(#[trigger] rest[i]) by {
            assert(rest[i] == a[i + 1]);
        }
        lemma_from_plain(rest, b);
        assert((a + b)[0] == a[0]);
        assert((a + b).drop_first() =~= rest + b);
    }
}

/// Stripping undoes joining: what is left of a path beneath a rooted base is the
/// path that was joined to it.
pub proof fn law_stripping_undoes_joining(base: Seq<char>, rel: Seq<char>)
    requires
        is_plain_path(base),
        is_plain_path(rel),
    ensures
        joined("/"@ + base, rel) == "/"@ + base + "/"@ + rel,
        stripped(joined("/"@ + base, rel), "/"@ + base) == Some(rel),
{
    reveal_strlit("/");
    let nothing = Seq::<char>::empty();
    let a = segments(base);
    let b = segments(rel);
    let whole = base.push('/') + rel;
    text::lemma_split_append(base, rel, '/');
    text::lemma_split_pieces(base, '/');
    text::lemma_split_pieces(rel, '/');
    text::lemma_join_split(base, '/');
    text::lemma_join_split(rel, '/');
    lemma_plain_path(base);
    lemma_plain_path(rel);
    assert(is_plain(a[a.len() - 1]));
    assert(is_plain(b[0]));
    assert(base.last() != '/') by {
        lemma_last_char(base);
    }
    assert(rel[0] != '/') by {
        lemma_first_char(rel);
    }
    assert(joined("/"@ + base, rel) =~= "/"@ + base + "/"@ + rel);
    assert(joined("/"@ + base, rel) =~= "/"@ + whole);
    assert(is_plain_path(whole)) by {
        assert forall|i: int| 0 <= i < segments(whole).len() implies is_plain(
            #[trigger] segments(whole)[i],
        ) by {
            if i < a.len() {
                assert(segments(whole)[i] == a[i]);
            } else {
                assert(segments(whole)[i] == b[i - a.len()]);
            }
        }
    }
    lemma_rooted(base);
    lemma_rooted(whole);
    let x = components("/"@ + base);
    let y = components("/"@ + whole);
    assert(x =~= y.subrange(0, x.len() as int));
    assert(segments("/"@ + whole).drop_first() =~= a + b);
    lemma_from_plain(a, b);
    assert(trim_tail(b) == b) by {
        assert(b.last() == b[b.len() - 1]);
    }
}

/// A path of names does not end in a separator.
proof fn lemma_last_char(p: Seq<char>)
    requires
        is_plain_path(p),
        p.len() > 0,
    ensures
        p.last() != '/',
{
    let parts = segments(p);
    text::lemma_split_pieces(p, '/');
    if p.last() == '/' {
        assert(parts.last().len() == 0);
        assert(is_plain(parts[parts.len() - 1]));
    }
}

/// A path of names does not begin with a separator.
pub proof fn lemma_first_char(p: Seq<char>)
    requires
        is_plain_path(p),
        p.len() > 0,
    ensures
        p[0] != '/',
{
    if p[0] == '/' {
        let nothing = Seq::<char>::empty();
        let rest = p.drop_first();
        assert(p =~= nothing.push('/') + rest);
        text::lemma_split_append(nothing, rest, '/');
        text::lemma_split_plain(nothing, '/');
        assert(segments(p)[0] == nothing);
        assert(is_plain(segments(p)[0]));
    }
}

/// A file lies in the folder its path leads through, rooted or not.
pub proof fn law_a_file_lies_in_its_folder(dir: Seq<char>, name: Seq<char>)
    requires
        is_plain_path(dir),
        is_plain(name),
        !name.contains('/'),
        name != dot_dot(),
    ensures
        file_name_of(dir + "/"@ + name) == Some(name),
        parent_of(dir + "/"@ + name) == Some(dir),
        file_name_of("/"@ + dir + "/"@ + name) == Some(name),
        parent_of("/"@ + dir + "/"@ + name) == Some("/"@ + dir),
{
    reveal_strlit("/");
    let nothing = Seq::<char>::empty();
    let short = dir + "/"@ + name;
    let parts = segments(dir);
    lemma_last_name(dir, name);
    lemma_last_name("/"@ + dir, name);
    assert(short =~= dir.push('/') + name);
    text::lemma_split_append(dir, name, '/');
    text::lemma_split_plain(name, '/');
    text::lemma_split_pieces(dir, '/');
    text::lemma_join_split(dir, '/');
    let all = parts + seq![name];
    assert(is_plain_path(short)) by {
        assert forall|i: int| 0 <= i < segments(short).len() implies is_plain(
            #[trigger] segments(short)[i],
        ) by {
            if i < parts.len() {
                assert(segments(short)[i] == parts[i]);
            } else {
                assert(segments(short)[i] == name);
            }
        }
    }
    lemma_plain_path(short);
    assert(all.drop_last() =~= parts);
    assert("/"@ + dir + "/"@ + name =~= "/"@ + short);
    lemma_rooted(short);
    lemma_rooted(dir);
    let long = seq![nothing] + all;
    assert(long.drop_first() =~= all);
    assert(all.last() == name);
    assert(trim_tail(all) == all);
    assert(body(long) =~= long);
    let front = seq![nothing] + parts;
    assert(long.drop_last() =~= front);
    assert(front.drop_first() =~= parts);
    assert(trim_tail(parts) == parts) by {
        assert(parts.last() == parts[parts.len() - 1]);
    }
    assert(body(front) =~= front);
    text::lemma_join_append(seq![nothing], parts, '/');
    assert(text::join(front, '/') =~= "/"@ + dir);
}

/// Joining a path of names to a rooted one puts one separator between them.
pub proof fn lemma_join_names(base: Seq<char>, rel: Seq<char>)
    requires
        is_plain_path(base),
        rel.len() > 0,
        rel[0] != '/',
    ensures
        joined("/"@ + base, rel) == "/"@ + base + "/"@ + rel,
{
    reveal_strlit("/");
    lemma_plain_path(base);
    lemma_last_char(base);
    assert(joined("/"@ + base, rel) =~= "/"@ + base + "/"@ + rel);
}

/// Nothing is left of a rooted path beneath itself.
pub proof fn lemma_nothing_beneath(base: Seq<char>)
    requires
        is_plain_path(base),
    ensures
        stripped("/"@ + base, "/"@ + base) == Some(Seq::<char>::empty()),
{
    let a = segments(base);
    let whole = "/"@ + base;
    lemma_rooted(base);
    let x = components(whole);
    assert(x =~= x.subrange(0, x.len() as int));
    assert(segments(whole).drop_first() =~= a);
    lemma_all_behind(a);
}

proof fn lemma_all_behind(a: Seq<Seq<char>>)
    requires
        forall|i: int| 0 <= i < a.len() ==> is_plain(#[trigger] a[i]),
    ensures
        from_plain(a, a.len()).len() == 0,
    decreases a.len(),
{
    if a.len() > 0 {
        let rest = a.drop_first();
        assert forall|i: int| 0 <= i < rest.len() implies is_plain(#[trigger] rest[i]) by {
            assert(rest[i] == a[i + 1]);
        }
        lemma_all_behind(rest);
    }
}

} // verus!
