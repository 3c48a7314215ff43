use vstd::prelude::*;
use crate::text::{has_prefix, lemma_split_step, split_on, split_state};

verus! {

/// A piece between separators that `Path::components` leaves out: an empty
/// one (from repeated or trailing `/`) or `.`.
pub open spec fn is_skipped_piece(p: Seq<u8>) -> bool {
    p.len() == 0 || p == seq![46u8]
}

/// The pieces of `pieces` that are kept as components, in order.
pub open spec fn kept_pieces(pieces: Seq<Seq<u8>>) -> Seq<Seq<u8>>
    decreases pieces.len(),
{
    if pieces.len() == 0 {
        Seq::empty()
    } else if is_skipped_piece(pieces.last()) {
        kept_pieces(pieces.drop_last())
    } else {
        kept_pieces(pieces.drop_last()).push(pieces.last())
    }
}

/// The components of a Unix path, each as the bytes it stands for: `/` for
/// the root, `.` for a leading current directory, `..` for a parent
/// directory and the name itself for a normal component.
pub open spec fn path_components(p: Seq<u8>) -> Seq<Seq<u8>> {
    path_head(p) + kept_pieces(split_on(p, 47u8))
}

/// The component that a Unix path starts with besides its names: `/` for an
/// absolute path, `.` for one that starts with the current directory.
pub open spec fn path_head(p: Seq<u8>) -> Seq<Seq<u8>> {
    if p.len() > 0 && p[0] == 47u8 {
        seq![seq![47u8]]
    } else if p == seq![46u8] || has_prefix(p, seq![46u8, 47u8]) {
        seq![seq![46u8]]
    } else {
        Seq::empty()
    }
}

/// A component that names a file or directory (not the root, `.` or `..`).
pub open spec fn is_normal(c: Seq<u8>) -> bool {
    c != seq![47u8] && c != seq![46u8] && c != seq![46u8, 46u8]
}

/// `base` with `part` appended as `PathBuf::push` appends on Unix: an
/// absolute `part` replaces `base`, otherwise a `/` is put between them
/// unless `base` is empty or already ends with one.
pub open spec fn push_path(base: Seq<u8>, part: Seq<u8>) -> Seq<u8> {
    if part.len() > 0 && part[0] == 47u8 {
        part
    } else if base.len() > 0 && base.last() != 47u8 {
        base + seq![47u8] + part
    } else {
        base + part
    }
}

/// `base` with each of `parts` appended in turn.
pub open spec fn push_all(base: Seq<u8>, parts: Seq<Seq<u8>>) -> Seq<u8>
    decreases parts.len(),
{
    if parts.len() == 0 {
        base
    } else {
        push_path(push_all(base, parts.drop_last()), parts.last())
    }
}

/// The user whose home a path starts with: the rest of a first component
/// that begins with `~` (empty for `~` itself, the current user).
pub open spec fn home_user_of(p: Seq<u8>) -> Option<Seq<u8>> {
    let comps = path_components(p);
    if comps.len() > 0 && is_normal(comps[0]) && has_prefix(comps[0], seq![126u8]) {
        Some(comps[0].drop_first())
    } else {
        None
    }
}

/// `p` with a leading `~` replaced by `home`, or a leading `~user` by
/// `user_home`, when these are known; the path is rebuilt from its
/// components either way.
pub open spec fn expanded(p: Seq<u8>, home: Option<Seq<u8>>, user_home: Option<Seq<u8>>) -> Seq<u8> {
    let comps = path_components(p);
    if comps.len() == 0 {
        Seq::empty()
    } else {
        let first = comps[0];
        let start = if is_normal(first) && first == seq![126u8] && home is Some {
            home->0
        } else if is_normal(first) && has_prefix(first, seq![126u8]) && user_home is Some {
            user_home->0
        } else {
            first
        };
        push_all(start, comps.skip(1))
    }
}

/// Appends the bytes of `part` to `base`.
fn append_bytes(base: &mut Vec<u8>, part: &[u8])
    ensures
        final(base)@ == old(base)@ + part@,
{
    let mut i: usize = 0;
    while i < part.len()
        invariant
            i <= part@.len(),
            base@ == old(base)@ + part@.take(i as int),
        decreases part@.len() - i,
    {
        base.push(part[i]);
        i += 1;
        assert(base@ =~= old(base)@ + part@.take(i as int));
    }
    assert(part@.take(part@.len() as int) =~= part@);
}

/// Appends `part` to the path `base` as `PathBuf::push` does on Unix.
pub fn push_component(base: &mut Vec<u8>, part: &[u8])
    ensures
        final(base)@ == push_path(old(base)@, part@),
{
    if part.len() > 0 && part[0] == 47u8 {
        base.clear();
        append_bytes(base, part);
    } else {
        if base.len() > 0 && base[base.len() - 1] != 47u8 {
            base.push(47u8);
        }
        append_bytes(base, part);
    }
}

/// The components of `path` (see `path_components`).
pub fn components(path: &[u8]) -> (res: Vec<Vec<u8>>)
    ensures
        res@.map_values(|c: Vec<u8>| c@) == path_components(path@),
{
    let mut res: Vec<Vec<u8>> = Vec::new();
    let ghost head: Seq<Seq<u8>>;
    if path.len() > 0 && path[0] == 47u8 {
        let mut root: Vec<u8> = Vec::new();
        root.push(47u8);
        res.push(root);
        proof {
            head = seq![seq![47u8]];
        }
    } else if path.len() > 0 && path[0] == 46u8 && (path.len() == 1 || path[1] == 47u8) {
        let mut cur: Vec<u8> = Vec::new();
        cur.push(46u8);
        res.push(cur);
        proof {
            head = seq![seq![46u8]];
            if path@.len() == 1 {
                assert(path@ =~= seq![46u8]);
            } else {
                assert(path@.take(2) =~= seq![46u8, 47u8]);
            }
        }
    } else {
        proof {
            head = Seq::empty();
            if path@.len() >= 2 && has_prefix(path@, seq![46u8, 47u8]) {
                assert(path@.take(2)[0] == path@[0]);
                assert(path@.take(2)[1] == path@[1]);
            }
        }
    }
    assert(res@.map_values(|c: Vec<u8>| c@) =~= head + kept_pieces(Seq::empty()));
    let mut start: usize = 0;
    let mut i: usize = 0;
    let ghost mut done: Seq<Seq<u8>> = Seq::empty();
    while i < path.len()
        invariant
            start <= i <= path@.len(),
            split_state(path@.take(i as int), 47u8) == (done, path@.subrange(start as int, i as int)),
            res@.map_values(|c: Vec<u8>| c@) == head + kept_pieces(done),
        decreases path@.len() - i,
    {
        proof {
            lemma_split_step(path@, i as int, 47u8);
        }
        if path[i] == 47u8 {
            let piece = vstd::slice::slice_subrange(path, start, i);
            proof {
                assert(done.push(piece@).drop_last() =~= done);
            }
            if !is_skipped(piece) {
                let v = vstd::slice::slice_to_vec(piece);
                proof {
                    assert(res@.push(v).map_values(|c: Vec<u8>| c@) =~= (head + kept_pieces(done)).push(v@));
                }
                res.push(v);
            }
            proof {
                done = done.push(piece@);
            }
            start = i + 1;
        } else {
            proof {
                assert(path@.subrange(start as int, i + 1) =~= path@.subrange(start as int, i as int).push(path@[i as int]));
            }
        }
        i += 1;
    }
    let piece = vstd::slice::slice_subrange(path, start, path.len());
    proof {
        assert(path@.take(path@.len() as int) =~= path@);
        assert(done.push(piece@).drop_last() =~= done);
    }
    if !is_skipped(piece) {
        let v = vstd::slice::slice_to_vec(piece);
        proof {
            assert(res@.push(v).map_values(|c: Vec<u8>| c@) =~= (head + kept_pieces(done)).push(v@));
        }
        res.push(v);
    }
    res
}

/// Whether a piece between separators is left out of the components.
fn is_skipped(p: &[u8]) -> (res: bool)
    ensures
        res == is_skipped_piece(p@),
{
    let res = p.len() == 0 || (p.len() == 1 && p[0] == 46u8);
    proof {
        if p@.len() == 1 && p@[0] == 46u8 {
            assert(p@ =~= seq![46u8]);
        }
    }
    res
}

/// Whether a component names a file or directory.
fn is_normal_component(c: &[u8]) -> (res: bool)
    ensures
        res == is_normal(c@),
{
    let root = c.len() == 1 && c[0] == 47u8;
    let cur = c.len() == 1 && c[0] == 46u8;
    let parent = c.len() == 2 && c[0] == 46u8 && c[1] == 46u8;
    proof {
        if c@.len() == 1 {
            if c@[0] == 47u8 {
                assert(c@ =~= seq![47u8]);
            }
            if c@[0] == 46u8 {
                assert(c@ =~= seq![46u8]);
            }
        }
        if c@.len() == 2 && c@[0] == 46u8 && c@[1] == 46u8 {
            assert(c@ =~= seq![46u8, 46u8]);
        }
    }
    !(root || cur || parent)
}

/// The user whose home `path` starts with, if it starts with `~` or
/// `~user` (see `home_user_of`).
pub fn home_user(path: &[u8]) -> (res: Option<Vec<u8>>)
    ensures
        match res {
            Some(u) => home_user_of(path@) == Some(u@),
            None => home_user_of(path@) is None,
        },
{
    let comps = components(path);
    proof {
        assert(comps@.len() == path_components(path@).len());
    }
    if comps.len() == 0 {
        return None;
    }
    let first: &[u8] = comps[0].as_slice();
    proof {
        assert(first@ == path_components(path@)[0]);
    }
    if is_normal_component(first) && first.len() > 0 && first[0] == 126u8 {
        let rest = vstd::slice::slice_subrange(first, 1, first.len());
        proof {
            assert(first@.take(1) =~= seq![126u8]);
            assert(rest@ =~= first@.drop_first());
        }
        Some(vstd::slice::slice_to_vec(rest))
    } else {
        proof {
            if first@.len() > 0 && has_prefix(first@, seq![126u8]) {
                assert(first@.take(1)[0] == first@[0]);
            }
        }
        None
    }
}

/// `path` with a leading `~` replaced by `home` (the current user's home
/// directory, when it could be found) or a leading `~user` replaced by
/// `user_home` (the home directory of `user`, when it could be found).
pub fn expand_home(path: &[u8], home: Option<&[u8]>, user_home: Option<&[u8]>) -> (res: Vec<u8>)
    ensures
        res@ == expanded(
            path@,
            match home {
                Some(h) => Some(h@),
                None => None,
            },
            match user_home {
                Some(h) => Some(h@),
                None => None,
            },
        ),
{
    let comps = components(path);
    let ghost cs = path_components(path@);
    proof {
        assert(comps@.len() == cs.len());
    }
    let mut res: Vec<u8> = Vec::new();
    if comps.len() == 0 {
        return res;
    }
    let first: &[u8] = comps[0].as_slice();
    proof {
        assert(first@ == cs[0]);
    }
    let normal = is_normal_component(first);
    let is_tilde = first.len() == 1 && first[0] == 126u8;
    let tilde_prefix = first.len() > 0 && first[0] == 126u8;
    proof {
        if first@.len() == 1 && first@[0] == 126u8 {
            assert(first@ =~= seq![126u8]);
        }
        if first@.len() > 0 && first@[0] == 126u8 {
            assert(first@.take(1) =~= seq![126u8]);
        }
        if first@.len() > 0 && has_prefix(first@, seq![126u8]) {
            assert(first@.take(1)[0] == first@[0]);
        }
    }
    match (normal && is_tilde, home) {
        (true, Some(h)) => append_bytes(&mut res, h),
        _ => match (normal && tilde_prefix, user_home) {
            (true, Some(h)) => append_bytes(&mut res, h),
            _ => append_bytes(&mut res, first),
        },
    }
    let mut i: usize = 1;
    assert(cs.skip(1).take(0) =~= Seq::<Seq<u8>>::empty());
    while i < comps.len()
        invariant
            1 <= i <= comps@.len(),
            comps@.len() == cs.len(),
            comps@.map_values(|c: Vec<u8>| c@) == cs,
            res@ == push_all(
                if is_normal(cs[0]) && cs[0] == seq![126u8] && home is Some {
                    home->0@
                } else if is_normal(cs[0]) && has_prefix(cs[0], seq![126u8]) && user_home is Some {
                    user_home->0@
                } else {
                    cs[0]
                },
                cs.skip(1).take(i - 1),
            ),
        decreases comps@.len() - i,
    {
        let part: &[u8] = comps[i].as_slice();
        proof {
            assert(part@ == cs[i as int]);
            assert(cs.skip(1).take(i as int).drop_last() =~= cs.skip(1).take(i - 1));
        }
        push_component(&mut res, part);
        i += 1;
    }
    assert(cs.skip(1).take(comps@.len() - 1) =~= cs.skip(1));
    res
}

} // verus!

verus! {

/// No piece of a split holds the separator.
proof fn lemma_pieces_lack_sep(s: Seq<u8>, sep: u8)
    ensures
        forall|k: int| 0 <= k < split_state(s, sep).0.len() ==> !(#[trigger] split_state(s, sep).0[k]).contains(sep),
        !split_state(s, sep).1.contains(sep),
    decreases s.len(),
{
    if s.len() > 0 {
        lemma_pieces_lack_sep(s.drop_last(), sep);
        let (done, open) = split_state(s.drop_last(), sep);
        if s.last() != sep {
            assert forall|x: u8| open.push(s.last()).contains(x) implies x != sep by {
                let j = choose|j: int| 0 <= j < open.push(s.last()).len() && open.push(s.last())[j] == x;
                if j < open.len() {
                    assert(open.contains(x));
                }
            }
        } else {
            assert forall|k: int| 0 <= k < done.push(open).len() implies !(#[trigger] done.push(open)[k]).contains(sep) by {
                if k < done.len() {
                    assert(done.push(open)[k] == done[k]);
                }
            }
        }
    }
}

/// The kept pieces are non-empty pieces of the split.
proof fn lemma_kept_pieces(pieces: Seq<Seq<u8>>)
    requires
        forall|k: int| 0 <= k < pieces.len() ==> !(#[trigger] pieces[k]).contains(47u8),
    ensures
        forall|k: int| 0 <= k < kept_pieces(pieces).len() ==> (#[trigger] kept_pieces(pieces)[k]).len() > 0
            && !kept_pieces(pieces)[k].contains(47u8) && !is_skipped_piece(kept_pieces(pieces)[k]),
    decreases pieces.len(),
{
    if pieces.len() > 0 {
        assert forall|k: int| 0 <= k < pieces.drop_last().len() implies !(#[trigger] pieces.drop_last()[k]).contains(47u8) by {
            assert(pieces.drop_last()[k] == pieces[k]);
        }
        lemma_kept_pieces(pieces.drop_last());
        let r = kept_pieces(pieces.drop_last());
        if !is_skipped_piece(pieces.last()) {
            assert forall|k: int| 0 <= k < r.push(pieces.last()).len() implies (#[trigger] r.push(pieces.last())[k]).len() > 0
                && !r.push(pieces.last())[k].contains(47u8) && !is_skipped_piece(r.push(pieces.last())[k]) by {
                if k < r.len() {
                    assert(r.push(pieces.last())[k] == r[k]);
                } else {
                    assert(pieces.last() == pieces[pieces.len() - 1]);
                }
            }
        }
    }
}

/// Every component after the first is a non-empty name without `/`.
proof fn lemma_later_components(p: Seq<u8>)
    ensures
        forall|k: int| 1 <= k < path_components(p).len() ==> (#[trigger] path_components(p)[k]).len() > 0
            && path_components(p)[k][0] != 47u8,
{
    lemma_pieces_lack_sep(p, 47u8);
    let pieces = split_on(p, 47u8);
    assert forall|k: int| 0 <= k < pieces.len() implies !(#[trigger] pieces[k]).contains(47u8) by {
        if k < split_state(p, 47u8).0.len() {
            assert(pieces[k] == split_state(p, 47u8).0[k]);
        }
    }
    lemma_kept_pieces(pieces);
    let kept = kept_pieces(pieces);
    let comps = path_components(p);
    assert forall|k: int| 1 <= k < comps.len() implies (#[trigger] comps[k]).len() > 0 && comps[k][0] != 47u8 by {
        let h = comps.len() - kept.len();
        assert(kept[k - h] == comps[k]);
        assert(kept[k - h].len() > 0 && !kept[k - h].contains(47u8));
        if kept[k - h][0] == 47u8 {
            assert(kept[k - h].contains(47u8));
        }
    }
}

/// Appending parts that are not absolute keeps what was there in front.
proof fn lemma_push_all_keeps_base(base: Seq<u8>, parts: Seq<Seq<u8>>)
    requires
        forall|k: int| 0 <= k < parts.len() ==> (#[trigger] parts[k]).len() > 0 && parts[k][0] != 47u8,
    ensures
        has_prefix(push_all(base, parts), base),
    decreases parts.len(),
{
    if parts.len() > 0 {
        assert forall|k: int| 0 <= k < parts.drop_last().len() implies (#[trigger] parts.drop_last()[k]).len() > 0
            && parts.drop_last()[k][0] != 47u8 by {
            assert(parts.drop_last()[k] == parts[k]);
        }
        lemma_push_all_keeps_base(base, parts.drop_last());
        let before = push_all(base, parts.drop_last());
        let last = parts.last();
        assert(last == parts[parts.len() - 1]);
        let after = push_path(before, last);
        assert(after.take(before.len() as int) =~= before);
        assert(after.take(base.len() as int) =~= before.take(base.len() as int));
    } else {
        assert(base.take(base.len() as int) =~= base);
    }
}

/// A path that does not start with `~` comes out the same whatever the home
/// directories are: only the form of its components changes.
pub proof fn lemma_expand_without_tilde(
    p: Seq<u8>,
    h1: Option<Seq<u8>>,
    u1: Option<Seq<u8>>,
    h2: Option<Seq<u8>>,
    u2: Option<Seq<u8>>,
)
    requires
        home_user_of(p) is None,
    ensures
        expanded(p, h1, u1) == expanded(p, h2, u2),
{
    let comps = path_components(p);
    if comps.len() > 0 && comps[0] == seq![126u8] {
        assert(comps[0].take(1) =~= seq![126u8]);
    }
}

/// A path that starts with `~` is expanded to one that starts with the home
/// directory, when that is known; one that starts with `~user` to one that
/// starts with that user's home directory, when that is known (and, for
/// `~` alone, the current user's home is not).
pub proof fn lemma_expand_starts_with_home(p: Seq<u8>, home: Option<Seq<u8>>, user_home: Option<Seq<u8>>)
    requires
        home_user_of(p) is Some,
    ensures
        home_user_of(p) == Some(Seq::<u8>::empty()) && home is Some ==> has_prefix(
            expanded(p, home, user_home),
            home->0,
        ),
        (home_user_of(p) != Some(Seq::<u8>::empty()) || home is None) && user_home is Some ==> has_prefix(
            expanded(p, home, user_home),
            user_home->0,
        ),
{
    let comps = path_components(p);
    lemma_later_components(p);
    assert forall|k: int| 0 <= k < comps.skip(1).len() implies (#[trigger] comps.skip(1)[k]).len() > 0
        && comps.skip(1)[k][0] != 47u8 by {
        assert(comps.skip(1)[k] == comps[k + 1]);
    }
    let first = comps[0];
    if first.len() == 1 {
        assert(first.drop_first() =~= Seq::<u8>::empty());
        assert(first.take(1) == first);
        assert(first =~= seq![126u8]);
    } else {
        assert(first.drop_first().len() > 0);
    }
    if home is Some {
        lemma_push_all_keeps_base(home->0, comps.skip(1));
    }
    if user_home is Some {
        lemma_push_all_keeps_base(user_home->0, comps.skip(1));
    }
}

} // verus!

verus! {

/// A component that can follow the first one: a non-empty name without `/`
/// that is not `.`.
pub open spec fn is_later_component(c: Seq<u8>) -> bool {
    c.len() > 0 && !c.contains(47u8) && c != seq![46u8]
}

/// Splitting `s + t`, where `t` holds no separator, extends the last piece
/// of the split of `s` by `t`.
pub proof fn lemma_split_append(s: Seq<u8>, t: Seq<u8>, sep: u8)
    requires
        !t.contains(sep),
    ensures
        split_state(s + t, sep) == (split_state(s, sep).0, split_state(s, sep).1 + t),
    decreases t.len(),
{
    if t.len() == 0 {
        assert(s + t =~= s);
        assert(split_state(s, sep).1 + t =~= split_state(s, sep).1);
    } else {
        let t0 = t.drop_last();
        if t0.contains(sep) {
            let j = choose|j: int| 0 <= j < t0.len() && t0[j] == sep;
            assert(t[j] == sep);
        }
        lemma_split_append(s, t0, sep);
        assert((s + t).drop_last() =~= s + t0);
        assert((s + t).last() == t.last());
        if t.last() == sep {
            assert(t[t.len() - 1] == sep);
        }
        assert((split_state(s, sep).1 + t0).push(t.last()) =~= split_state(s, sep).1 + t);
    }
}

/// A single component, written as a path, has itself as its only component.
proof fn lemma_single_component(c: Seq<u8>)
    requires
        c == seq![47u8] || c == seq![46u8] || is_later_component(c),
    ensures
        path_components(c) == seq![c],
{
    let e = Seq::<u8>::empty();
    assert(split_state(e, 47u8) == (Seq::<Seq<u8>>::empty(), e));
    assert(kept_pieces(Seq::<Seq<u8>>::empty()) == Seq::<Seq<u8>>::empty());
    if c == seq![47u8] {
        assert(c.drop_last() =~= e);
        assert(split_on(c, 47u8) =~= seq![e, e]);
        assert(seq![e, e].drop_last() =~= seq![e]);
        assert(seq![e].drop_last() =~= Seq::<Seq<u8>>::empty());
        assert(seq![e].last() == e && seq![e, e].last() == e);
        assert(is_skipped_piece(e));
        assert(kept_pieces(seq![e]) == Seq::<Seq<u8>>::empty());
        assert(kept_pieces(seq![e, e]) == Seq::<Seq<u8>>::empty());
        assert(path_head(c) == seq![seq![47u8]]);
        assert(path_components(c) =~= seq![c]);
    } else {
        lemma_split_append(e, c, 47u8);
        assert(e + c =~= c);
        assert(split_on(c, 47u8) =~= seq![c]);
        assert(seq![c].drop_last() =~= Seq::<Seq<u8>>::empty());
        assert(seq![c].last() == c);
        if c == seq![46u8] {
            assert(is_skipped_piece(c));
            assert(kept_pieces(seq![c]) == Seq::<Seq<u8>>::empty());
            assert(path_head(c) == seq![seq![46u8]]);
            assert(path_components(c) =~= seq![c]);
        } else {
            assert(c[0] != 47u8) by {
                assert(c.contains(c[0]));
            }
            if c.len() >= 2 && c.take(2) == seq![46u8, 47u8] {
                assert(c.take(2)[1] == c[1]);
                assert(c.contains(c[1]));
            }
            assert(path_head(c) =~= Seq::<Seq<u8>>::empty());
            assert(kept_pieces(seq![c]) =~= seq![c]);
            assert(path_components(c) =~= seq![c]);
        }
    }
}

/// Appending a later component to a non-empty path adds it to the
/// components and keeps the first byte.
proof fn lemma_components_push(base: Seq<u8>, part: Seq<u8>)
    requires
        base.len() > 0,
        is_later_component(part),
    ensures
        push_path(base, part).len() > 0,
        push_path(base, part)[0] == base[0],
        path_components(push_path(base, part)) == path_components(base).push(part),
{
    let new = push_path(base, part);
    assert(part[0] != 47u8) by {
        assert(part.contains(part[0]));
    }
    let (done, open) = split_state(base, 47u8);
    if base.last() != 47u8 {
        let with_sep = base + seq![47u8];
        assert(new =~= with_sep + part);
        assert(with_sep.drop_last() =~= base);
        lemma_split_append(with_sep, part, 47u8);
        assert(Seq::<u8>::empty() + part =~= part);
        assert(split_on(new, 47u8) =~= split_on(base, 47u8).push(part));
        assert(split_on(base, 47u8).push(part).drop_last() =~= split_on(base, 47u8));
        assert(kept_pieces(split_on(new, 47u8)) == kept_pieces(split_on(base, 47u8)).push(part));
    } else {
        assert(new =~= base + part);
        assert(open =~= Seq::<u8>::empty());
        lemma_split_append(base, part, 47u8);
        assert(open + part =~= part);
        assert(split_on(new, 47u8) =~= done.push(part));
        assert(split_on(base, 47u8) =~= done.push(open));
        assert(split_on(base, 47u8).drop_last() =~= done);
        assert(done.push(part).drop_last() =~= done);
        assert(kept_pieces(split_on(base, 47u8)) == kept_pieces(done));
        assert(kept_pieces(split_on(new, 47u8)) == kept_pieces(done).push(part));
    }
    assert(new[0] == base[0]);
    assert(path_head(new) == path_head(base)) by {
        if base.len() >= 2 {
            assert(new.take(2) =~= base.take(2));
        } else if base.last() != 47u8 {
            assert(new.take(2) =~= seq![base[0], 47u8]);
            if base[0] == 46u8 {
                assert(base =~= seq![46u8]);
            }
        }
        if new == seq![46u8] {
            assert(new.len() == 1);
        }
    }
    assert(path_components(new) =~= path_components(base).push(part));
}

/// Appending later components to a non-empty path adds them to the
/// components and keeps the first byte.
proof fn lemma_components_push_all(base: Seq<u8>, parts: Seq<Seq<u8>>)
    requires
        base.len() > 0,
        forall|k: int| 0 <= k < parts.len() ==> is_later_component(#[trigger] parts[k]),
    ensures
        push_all(base, parts).len() > 0,
        push_all(base, parts)[0] == base[0],
        path_components(push_all(base, parts)) == path_components(base) + parts,
    decreases parts.len(),
{
    if parts.len() == 0 {
        assert(path_components(base) + parts =~= path_components(base));
    } else {
        assert forall|k: int| 0 <= k < parts.drop_last().len() implies is_later_component(
            #[trigger] parts.drop_last()[k],
        ) by {
            assert(parts.drop_last()[k] == parts[k]);
        }
        lemma_components_push_all(base, parts.drop_last());
        assert(is_later_component(parts[parts.len() - 1]));
        lemma_components_push(push_all(base, parts.drop_last()), parts.last());
        assert((path_components(base) + parts.drop_last()).push(parts.last()) =~= path_components(base)
            + parts);
    }
}

/// Every component after the first is a later component; the first is the
/// root, `.` or a later component too.
proof fn lemma_components_shape(p: Seq<u8>)
    ensures
        forall|k: int| 1 <= k < path_components(p).len() ==> is_later_component(#[trigger] path_components(p)[k]),
        path_components(p).len() > 0 ==> (path_components(p)[0] == seq![47u8] || path_components(p)[0]
            == seq![46u8] || is_later_component(path_components(p)[0])),
{
    lemma_pieces_lack_sep(p, 47u8);
    let pieces = split_on(p, 47u8);
    assert forall|k: int| 0 <= k < pieces.len() implies !(#[trigger] pieces[k]).contains(47u8) by {
        if k < split_state(p, 47u8).0.len() {
            assert(pieces[k] == split_state(p, 47u8).0[k]);
        }
    }
    lemma_kept_pieces(pieces);
    let kept = kept_pieces(pieces);
    let head = path_head(p);
    let comps = path_components(p);
    assert forall|k: int| 0 <= k < comps.len() && k >= head.len() implies is_later_component(#[trigger] comps[k]) by {
        assert(comps[k] == kept[k - head.len()]);
        assert(!is_skipped_piece(kept[k - head.len()]));
    }
    if comps.len() > 0 && head.len() > 0 {
        assert(comps[0] == head[0]);
    }
}

/// Expanding a path a second time gives back its components, when the home
/// directories are absolute: the first expansion leaves no `~` to replace.
pub proof fn lemma_expand_idempotent(p: Seq<u8>, home: Option<Seq<u8>>, user_home: Option<Seq<u8>>)
    requires
        home matches Some(h) ==> h.len() > 0 && h[0] == 47u8,
        user_home matches Some(h) ==> h.len() > 0 && h[0] == 47u8,
    ensures
        path_components(expanded(expanded(p, home, user_home), home, user_home)) == path_components(
            expanded(p, home, user_home),
        ),
{
    let comps = path_components(p);
    let r = expanded(p, home, user_home);
    if comps.len() == 0 {
        let e = Seq::<u8>::empty();
        assert(split_state(e, 47u8) == (Seq::<Seq<u8>>::empty(), e));
        assert(split_on(e, 47u8) =~= seq![e]);
        assert(seq![e].drop_last() =~= Seq::<Seq<u8>>::empty());
        assert(seq![e].last() == e);
        assert(kept_pieces(Seq::<Seq<u8>>::empty()) == Seq::<Seq<u8>>::empty());
        assert(path_components(e) =~= Seq::<Seq<u8>>::empty());
    } else {
        lemma_components_shape(p);
        let parts = comps.skip(1);
        assert forall|k: int| 0 <= k < parts.len() implies is_later_component(#[trigger] parts[k]) by {
            assert(parts[k] == comps[k + 1]);
        }
        let first = comps[0];
        let by_home = is_normal(first) && first == seq![126u8] && home is Some;
        let by_user = !by_home && is_normal(first) && has_prefix(first, seq![126u8]) && user_home is Some;
        if by_home || by_user {
            let start = if by_home { home->0 } else { user_home->0 };
            assert(r == push_all(start, parts));
            lemma_components_push_all(start, parts);
            lemma_components_shape(start);
            let sc = path_components(start);
            assert(sc.len() > 0 && sc[0] == seq![47u8]) by {
                assert(path_head(start) == seq![seq![47u8]]);
                assert(sc[0] == path_head(start)[0]);
            }
            let rc = path_components(r);
            assert(rc =~= sc + parts);
            let rest = rc.skip(1);
            assert forall|k: int| 0 <= k < rest.len() implies is_later_component(#[trigger] rest[k]) by {
                assert(rest[k] == rc[k + 1]);
                if k + 1 < sc.len() {
                    assert(rc[k + 1] == sc[k + 1]);
                } else {
                    assert(rc[k + 1] == parts[k + 1 - sc.len()]);
                }
            }
            let root = seq![47u8];
            assert(!is_normal(rc[0]));
            assert(expanded(r, home, user_home) == push_all(root, rest));
            lemma_components_push_all(root, rest);
            lemma_single_component(root);
            assert(seq![root] + rest =~= rc);
        } else {
            assert(r == push_all(first, parts));
            assert(first.len() > 0) by {
                if first != seq![47u8] && first != seq![46u8] {
                    assert(is_later_component(first));
                }
            }
            lemma_single_component(first);
            lemma_components_push_all(first, parts);
            assert(seq![first] + parts =~= comps);
            assert(path_components(r) == comps);
            assert(expanded(r, home, user_home) == r);
        }
    }
}

} // verus!
