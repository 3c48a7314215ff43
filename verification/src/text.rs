use vstd::prelude::*;
use vstd::string::StrSliceExecFns;
use vstd::utf8::{decode_utf8, valid_utf8};

verus! {

broadcast use vstd::string::group_string_axioms;

/// The characters of `s`, in order.
pub fn chars_of(s: &str) -> (res: Vec<char>)
    ensures
        res@ == s@,
{
    let mut res: Vec<char> = Vec::new();
    for c in it: s.chars()
        invariant
            res@ == it.seq().take(it.index() as int),
            it.seq() == s@,
    {
        res.push(c);
    }
    res
}

/// The bytes of a text whose characters are all ASCII.
pub open spec fn ascii(s: Seq<char>) -> Seq<u8> {
    Seq::new(s.len(), |i: int| s[i] as u8)
}

/// Splitting `s` at every `sep`: the pieces closed so far and the piece
/// still open at the end of `s`.
pub open spec fn split_state<T>(s: Seq<T>, sep: T) -> (Seq<Seq<T>>, Seq<T>)
    decreases s.len(),
{
    if s.len() == 0 {
        (Seq::empty(), Seq::empty())
    } else {
        let (done, open) = split_state(s.drop_last(), sep);
        if s.last() == sep {
            (done.push(open), Seq::empty())
        } else {
            (done, open.push(s.last()))
        }
    }
}

/// The pieces of `s` between occurrences of `sep`; there is always at least
/// one, and an empty `s` gives one empty piece.
pub open spec fn split_on<T>(s: Seq<T>, sep: T) -> Seq<Seq<T>> {
    split_state(s, sep).0.push(split_state(s, sep).1)
}

/// One more element of `s` extends the split of its prefix.
pub proof fn lemma_split_step<T>(s: Seq<T>, i: int, sep: T)
    requires
        0 <= i < s.len(),
    ensures
        split_state(s.take(i + 1), sep) == (if s[i] == sep {
            (split_state(s.take(i), sep).0.push(split_state(s.take(i), sep).1), Seq::<T>::empty())
        } else {
            (split_state(s.take(i), sep).0, split_state(s.take(i), sep).1.push(s[i]))
        }),
{
    assert(s.take(i + 1).drop_last() =~= s.take(i));
}

/// Index of the first `x` in `s`, or the length of `s` when there is none.
pub open spec fn first_index<T>(s: Seq<T>, x: T) -> int
    decreases s.len(),
{
    if s.len() == 0 {
        0
    } else if s[0] == x {
        0
    } else {
        1 + first_index(s.drop_first(), x)
    }
}

pub proof fn lemma_first_index<T>(s: Seq<T>, x: T)
    ensures
        0 <= first_index(s, x) <= s.len(),
        first_index(s, x) < s.len() ==> s[first_index(s, x)] == x,
        forall|k: int| 0 <= k < first_index(s, x) ==> s[k] != x,
        s.contains(x) <==> first_index(s, x) < s.len(),
    decreases s.len(),
{
    if s.len() > 0 && s[0] != x {
        lemma_first_index(s.drop_first(), x);
        assert forall|k: int| 0 <= k < first_index(s, x) implies s[k] != x by {
            if k > 0 {
                assert(s[k] == s.drop_first()[k - 1]);
            }
        }
        if s.contains(x) {
            let j = choose|j: int| 0 <= j < s.len() && s[j] == x;
            assert(s.drop_first()[j - 1] == x);
        }
        if first_index(s, x) < s.len() {
            assert(s[first_index(s, x)] == s.drop_first()[first_index(s.drop_first(), x)]);
        }
    }
}

/// Position of the first `x` in `s`, or its length when there is none.
pub fn find_byte(s: &[u8], x: u8) -> (res: usize)
    ensures
        res == first_index(s@, x),
{
    proof {
        lemma_first_index(s@, x);
    }
    let mut i: usize = 0;
    while i < s.len()
        invariant
            i <= s@.len(),
            forall|k: int| 0 <= k < i ==> s@[k] != x,
        decreases s@.len() - i,
    {
        if s[i] == x {
            proof {
                lemma_first_index_at(s@, x, i as int);
            }
            return i;
        }
        i += 1;
    }
    proof {
        lemma_first_index_at(s@, x, i as int);
    }
    i
}

/// The first index is the one before which no `x` occurs and at which `x`
/// occurs (or the end is reached).
proof fn lemma_first_index_at<T>(s: Seq<T>, x: T, i: int)
    requires
        0 <= i <= s.len(),
        forall|k: int| 0 <= k < i ==> s[k] != x,
        i < s.len() ==> s[i] == x,
    ensures
        first_index(s, x) == i,
    decreases s.len(),
{
    if s.len() > 0 && s[0] != x {
        assert forall|k: int| 0 <= k < i - 1 implies s.drop_first()[k] != x by {
            assert(s[k + 1] != x);
        }
        lemma_first_index_at(s.drop_first(), x, i - 1);
    }
}

/// Whether the two byte strings are equal.
pub fn bytes_equal(a: &[u8], b: &[u8]) -> (res: bool)
    ensures
        res == (a@ == b@),
{
    if a.len() != b.len() {
        return false;
    }
    let mut i: usize = 0;
    while i < a.len()
        invariant
            i <= a@.len(),
            a@.len() == b@.len(),
            forall|k: int| 0 <= k < i ==> a@[k] == b@[k],
        decreases a@.len() - i,
    {
        if a[i] != b[i] {
            return false;
        }
        i += 1;
    }
    assert(a@ =~= b@);
    true
}

/// `s` begins with `prefix`.
pub open spec fn has_prefix<T>(s: Seq<T>, prefix: Seq<T>) -> bool {
    prefix.len() <= s.len() && s.take(prefix.len() as int) == prefix
}

/// Whether `s` begins with `prefix`.
pub fn starts_with(s: &[u8], prefix: &[u8]) -> (res: bool)
    ensures
        res == has_prefix(s@, prefix@),
{
    if prefix.len() > s.len() {
        return false;
    }
    let head = vstd::slice::slice_subrange(s, 0, prefix.len());
    assert(head@ =~= s@.take(prefix@.len() as int));
    bytes_equal(head, prefix)
}

/// Whether `x` occurs in `s`.
pub fn contains_byte(s: &[u8], x: u8) -> (res: bool)
    ensures
        res == s@.contains(x),
{
    proof {
        lemma_first_index(s@, x);
    }
    find_byte(s, x) < s.len()
}

/// The bytes of an ASCII text literal.
pub fn ascii_bytes(s: &str) -> (res: &[u8])
    requires
        vstd::string::is_ascii(s),
    ensures
        res@ == ascii(s@),
{
    let res = s.as_bytes();
    assert(res@ =~= ascii(s@));
    res
}

/// The text that `bytes` encode in UTF-8, or `None` when they are not valid
/// UTF-8. Calls `std::string::String::from_utf8`, which by its documentation
/// returns an error exactly for byte strings that are not valid UTF-8 and
/// otherwise the text they encode; that is what the contract claims.
#[verifier::external_body]
pub(crate) fn string_from_utf8(bytes: Vec<u8>) -> (res: Option<String>)
    ensures
        res is Some <==> valid_utf8(bytes@),
        res matches Some(s) ==> s@ == decode_utf8(bytes@),
{
    String::from_utf8(bytes).ok()
}

} // verus!

verus! {

/// The pieces of `s` between occurrences of `sep`, as in `str::split`.
pub fn split_text(s: &str, sep: char) -> (res: Vec<String>)
    ensures
        res@.map_values(|p: String| p@) == split_on(s@, sep),
{
    let mut res: Vec<String> = Vec::new();
    let mut start: usize = 0;
    let mut i: usize = 0;
    let ghost mut done: Seq<Seq<char>> = Seq::empty();
    let n = s.unicode_len();
    for c in it: s.chars()
        invariant
            n == s@.len(),
            it.seq() == s@,
            i == it.index(),
            start <= i <= s@.len(),
            split_state(s@.take(i as int), sep) == (done, s@.subrange(start as int, i as int)),
            res@.map_values(|p: String| p@) == done,
    {
        assert(i < s@.len());
        proof {
            lemma_split_step(s@, i as int, sep);
        }
        if c == sep {
            let piece = s.substring_char(start, i).to_owned();
            proof {
                assert(res@.push(piece).map_values(|p: String| p@) =~= done.push(piece@));
                done = done.push(piece@);
            }
            res.push(piece);
            start = i + 1;
        } else {
            proof {
                assert(s@.subrange(start as int, i + 1) =~= s@.subrange(start as int, i as int).push(c));
            }
        }
        i += 1;
    }
    let piece = s.substring_char(start, i).to_owned();
    proof {
        assert(s@.take(s@.len() as int) =~= s@);
        assert(res@.push(piece).map_values(|p: String| p@) =~= done.push(piece@));
    }
    res.push(piece);
    res
}

} // verus!

verus! {

/// The pieces joined back together with `sep` between them.
pub open spec fn join_with<T>(pieces: Seq<Seq<T>>, sep: T) -> Seq<T>
    decreases pieces.len(),
{
    if pieces.len() == 0 {
        Seq::empty()
    } else if pieces.len() == 1 {
        pieces[0]
    } else {
        join_with(pieces.drop_last(), sep).push(sep) + pieces.last()
    }
}

/// Splitting at `sep` loses nothing: joining the pieces with `sep` gives
/// back the text.
pub proof fn lemma_split_then_join<T>(s: Seq<T>, sep: T)
    ensures
        join_with(split_on(s, sep), sep) == s,
    decreases s.len(),
{
    if s.len() == 0 {
        assert(split_on(s, sep) =~= seq![Seq::<T>::empty()]);
    } else {
        lemma_split_then_join(s.drop_last(), sep);
        let (done, open) = split_state(s.drop_last(), sep);
        let before = done.push(open);
        assert(before.drop_last() =~= done);
        if s.last() == sep {
            let after = done.push(open).push(Seq::<T>::empty());
            assert(after.drop_last() =~= before);
            assert(join_with(after, sep) =~= s);
        } else {
            let after = done.push(open.push(s.last()));
            assert(after.drop_last() =~= done);
            assert(s =~= s.drop_last().push(s.last()));
            if done.len() == 0 {
                assert(join_with(after, sep) =~= s);
            } else {
                assert(join_with(before, sep) == join_with(done, sep).push(sep) + open);
                assert(join_with(after, sep) == join_with(done, sep).push(sep) + open.push(s.last()));
                assert(join_with(after, sep) =~= s);
            }
        }
    }
}

} // verus!
