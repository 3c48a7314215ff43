use vstd::prelude::*;

verus! {

/// `c1, c2` is the pair `cc1, cc2` in one order or the other.
pub open spec fn pair_matches(c1: char, c2: char, cc1: char, cc2: char) -> bool {
    (c1 == cc1 && c2 == cc2) || (c1 == cc2 && c2 == cc1)
}

/// Two characters count as alike when they are equal, or when they are
/// space and dash, space and underscore, space and tab, or dash and
/// underscore (in either order). Tab and dash, for one, are not alike.
pub open spec fn chars_similar(c1: char, c2: char) -> bool {
    ||| c1 == c2
    ||| pair_matches(c1, c2, ' ', '-')
    ||| pair_matches(c1, c2, ' ', '_')
    ||| pair_matches(c1, c2, ' ', '\t')
    ||| pair_matches(c1, c2, '-', '_')
}

/// A dash facing an underscore, in either order.
pub open spec fn dash_and_underscore(c1: char, c2: char) -> bool {
    pair_matches(c1, c2, '-', '_')
}

/// The least of three numbers.
pub open spec fn min3(a: nat, b: nat, c: nat) -> nat {
    let m = if a <= b { a } else { b };
    if m <= c { m } else { c }
}

/// Edit distance between `a` and `b`, by the Levenshtein recurrence: when one
/// string is empty, the length of the other; when the first characters are
/// equal, the distance of the rests; when they are a dash and an underscore,
/// three more than the distance of the rests (the two must be replaced, and
/// weigh three edits); otherwise one more than the least of the distances
/// after dropping the first character of `a`, of `b`, or of both.
pub open spec fn edit_distance(a: Seq<char>, b: Seq<char>) -> nat
    decreases a.len() + b.len(),
{
    if a.len() == 0 || b.len() == 0 {
        a.len() + b.len()
    } else if a[0] == b[0] {
        edit_distance(a.drop_first(), b.drop_first())
    } else if dash_and_underscore(a[0], b[0]) {
        3 + edit_distance(a.drop_first(), b.drop_first())
    } else {
        1 + min3(
            edit_distance(a.drop_first(), b),
            edit_distance(a, b.drop_first()),
            edit_distance(a.drop_first(), b.drop_first()),
        )
    }
}

/// The larger of two lengths.
pub open spec fn longer(a: Seq<char>, b: Seq<char>) -> nat {
    if a.len() >= b.len() { a.len() } else { b.len() }
}

/// Memoised computation of `edit_distance` between two character strings.
pub struct Levenshtein<'a> {
    s1: &'a [char],
    s2: &'a [char],
    dp: Vec<i64>,
}

impl<'a> Levenshtein<'a> {
    /// The first string.
    pub closed spec fn first(&self) -> Seq<char> {
        self.s1@
    }

    /// The second string.
    pub closed spec fn second(&self) -> Seq<char> {
        self.s2@
    }

    /// The memo table: the cell of positions `p1`, `p2` is at
    /// `first().len() * p2 + p1`; `-1` marks an empty cell.
    pub closed spec fn table(&self) -> Seq<i64> {
        self.dp@
    }

    /// The memo cell `k` is empty (`-1`) or holds the distance between the
    /// suffixes of the two strings that it stands for.
    pub open spec fn cell_ok(&self, k: int) -> bool {
        let n1 = self.first().len() as int;
        self.table()[k] == -1 || self.table()[k] == edit_distance(
            self.first().skip(k % n1),
            self.second().skip(k / n1),
        )
    }

    /// The memo table has a cell for each pair of positions inside the
    /// strings, every cell is right, and every distance fits in an `i64`.
    pub open spec fn well_formed(&self) -> bool {
        let n1 = self.first().len();
        let n2 = self.second().len();
        &&& 3 * (n1 + n2) <= i64::MAX
        &&& 3 * (n1 + n2) <= usize::MAX
        &&& n1 * n2 <= usize::MAX
        &&& self.table().len() == n1 * n2
        &&& forall|k: int| 0 <= k < self.table().len() ==> #[trigger] self.cell_ok(k)
    }

    /// New instance, with an empty memo table.
    pub fn new(s1: &'a [char], s2: &'a [char]) -> (res: Self)
        requires
            s1@.len() * s2@.len() <= usize::MAX,
            3 * (s1@.len() + s2@.len()) <= i64::MAX,
            3 * (s1@.len() + s2@.len()) <= usize::MAX,
        ensures
            res.first() == s1@,
            res.second() == s2@,
            res.table().len() == s1@.len() * s2@.len(),
            forall|k: int| 0 <= k < res.table().len() ==> #[trigger] res.table()[k] == -1,
            res.well_formed(),
    {
        let n: usize = s1.len() * s2.len();
        let dp: Vec<i64> = vec![-1i64; n];
        assert forall|k: int| 0 <= k < dp@.len() implies #[trigger] dp@[k] == -1 by {
            assert(cloned(-1i64, dp@[k]));
        }
        let res = Self { s1, s2, dp };
        assert forall|k: int| 0 <= k < res.table().len() implies #[trigger] res.cell_ok(k) by {
            assert(res.table()[k] == -1);
        }
        res
    }

    /// The edit distance between the two strings.
    pub fn calculate(&mut self) -> (res: usize)
        requires
            old(self).well_formed(),
        ensures
            final(self).well_formed(),
            res == edit_distance(old(self).first(), old(self).second()),
            final(self).first() == old(self).first(),
            final(self).second() == old(self).second(),
            final(self).table().len() == old(self).table().len(),
            forall|k: int|
                0 <= k < old(self).table().len() && old(self).table()[k] != -1
                    ==> #[trigger] final(self).table()[k] == old(self).table()[k],
    {
        proof {
            assert(self.s1@.skip(0) =~= self.s1@);
            assert(self.s2@.skip(0) =~= self.s2@);
            lemma_distance_upper_bound(self.s1@, self.s2@);
        }
        self.process_actions(0, 0) as usize
    }

    /// The edit distance between the suffixes of the two strings that start
    /// at `pos1` and `pos2`, computed once per pair of positions: a filled
    /// cell is given back as it is, an empty one is filled with the result,
    /// and at the end of either string the table is not touched.
    pub fn process_actions(&mut self, pos1: usize, pos2: usize) -> (res: i64)
        requires
            old(self).well_formed(),
            pos1 <= old(self).first().len(),
            pos2 <= old(self).second().len(),
        ensures
            final(self).well_formed(),
            res == edit_distance(old(self).first().skip(pos1 as int), old(self).second().skip(pos2 as int)),
            final(self).first() == old(self).first(),
            final(self).second() == old(self).second(),
            final(self).table().len() == old(self).table().len(),
            forall|k: int|
                0 <= k < old(self).table().len() && old(self).table()[k] != -1
                    ==> #[trigger] final(self).table()[k] == old(self).table()[k],
            pos1 < old(self).first().len() && pos2 < old(self).second().len() ==> final(self).table()[
                old(self).first().len() * pos2 + pos1
            ] == res,
            pos1 == old(self).first().len() || pos2 == old(self).second().len() ==> final(self).table()
                == old(self).table(),
        decreases old(self).first().len() - pos1 + old(self).second().len() - pos2,
    {
        let ghost a = self.s1@.skip(pos1 as int);
        let ghost b = self.s2@.skip(pos2 as int);
        let ghost start = self.dp@;
        if pos1 == self.s1.len() || pos2 == self.s2.len() {
            return (self.s1.len() + self.s2.len() - pos1 - pos2) as i64;
        }
        proof {
            lemma_cell_index(self.s1@.len() as int, self.s2@.len() as int, pos1 as int, pos2 as int);
        }
        let idx = self.at(pos1, pos2);
        if self.dp[idx] != -1 {
            proof {
                assert(self.cell_ok(idx as int));
            }
            return self.dp[idx];
        }
        proof {
            assert(a.drop_first() =~= self.s1@.skip(pos1 + 1));
            assert(b.drop_first() =~= self.s2@.skip(pos2 + 1));
            assert(a[0] == self.s1@[pos1 as int]);
            assert(b[0] == self.s2@[pos2 as int]);
            lemma_distance_upper_bound(a, b);
            assert(longer(a, b) <= self.s1@.len() + self.s2@.len());
        }
        let c1 = self.s1[pos1];
        let c2 = self.s2[pos2];
        let res = if c1 == c2 {
            self.process_actions(pos1 + 1, pos2 + 1)
        } else if Self::matches(c1, c2, '-', '_') {
            let r = self.process_actions(pos1 + 1, pos2 + 1);
            r + 3
        } else {
            let r1 = self.process_actions(pos1 + 1, pos2);
            let r2 = self.process_actions(pos1, pos2 + 1);
            let r3 = self.process_actions(pos1 + 1, pos2 + 1);
            let m12 = if r1 <= r2 { r1 } else { r2 };
            let m = if m12 <= r3 { m12 } else { r3 };
            m + 1
        };
        proof {
            assert(res == edit_distance(a, b));
            assert(start[idx as int] == -1);
        }
        let ghost before = *self;
        self.dp.set(idx, res);
        proof {
            assert forall|k: int| 0 <= k < self.table().len() implies #[trigger] self.cell_ok(k) by {
                if k != idx {
                    assert(before.cell_ok(k));
                }
            }
        }
        res
    }

    /// Whether two characters count as alike (see `chars_similar`).
    pub fn similar(c1: char, c2: char) -> (res: bool)
        ensures
            res == chars_similar(c1, c2),
    {
        c1 == c2 || Self::matches(c1, c2, ' ', '-') || Self::matches(c1, c2, ' ', '_')
            || Self::matches(c1, c2, ' ', '\t') || Self::matches(c1, c2, '-', '_')
    }

    /// Whether `c1, c2` is the pair `cc1, cc2` in either order.
    pub fn matches(c1: char, c2: char, cc1: char, cc2: char) -> (res: bool)
        ensures
            res == pair_matches(c1, c2, cc1, cc2),
    {
        c1 == cc1 && c2 == cc2 || c1 == cc2 && c2 == cc1
    }

    /// Index of the memo cell for the positions `pos1` and `pos2`.
    pub fn at(&self, pos1: usize, pos2: usize) -> (res: usize)
        requires
            self.first().len() * pos2 + pos1 <= usize::MAX,
        ensures
            res == self.first().len() * pos2 + pos1,
    {
        self.s1.len() * pos2 + pos1
    }
}

/// The memo cell of positions `p1 < n1` and `p2 < n2` lies inside the table
/// and gives back both positions.
proof fn lemma_cell_index(n1: int, n2: int, p1: int, p2: int)
    requires
        0 <= p1 < n1,
        0 <= p2 < n2,
    ensures
        0 <= n1 * p2 + p1 < n1 * n2,
        (n1 * p2 + p1) % n1 == p1,
        (n1 * p2 + p1) / n1 == p2,
{
    assert(n1 * p2 + p1 < n1 * n2) by (nonlinear_arith)
        requires
            0 <= p1 < n1,
            0 <= p2 < n2,
    ;
    assert(0 <= n1 * p2) by (nonlinear_arith)
        requires
            0 <= n1,
            0 <= p2,
    ;
    vstd::arithmetic::div_mod::lemma_fundamental_div_mod_converse(n1 * p2 + p1, n1, p2, p1);
}

/// The distance never exceeds three times the longer length (a dash and an
/// underscore facing each other weigh three).
pub proof fn lemma_distance_upper_bound(a: Seq<char>, b: Seq<char>)
    ensures
        edit_distance(a, b) <= 3 * longer(a, b),
    decreases a.len() + b.len(),
{
    if a.len() == 0 || b.len() == 0 {
    } else {
        lemma_distance_upper_bound(a.drop_first(), b.drop_first());
    }
}

} // verus!

verus! {

/// `chars_similar` does not depend on the order of its arguments.
pub proof fn lemma_similar_symmetric(c1: char, c2: char)
    ensures
        chars_similar(c1, c2) == chars_similar(c2, c1),
{
}

/// The distance does not depend on which string comes first.
pub proof fn lemma_distance_symmetric(a: Seq<char>, b: Seq<char>)
    ensures
        edit_distance(a, b) == edit_distance(b, a),
    decreases a.len() + b.len(),
{
    if a.len() == 0 || b.len() == 0 {
    } else {
        lemma_distance_symmetric(a.drop_first(), b.drop_first());
        lemma_distance_symmetric(a.drop_first(), b);
        lemma_distance_symmetric(a, b.drop_first());
    }
}

/// A string is at distance zero from itself.
pub proof fn lemma_distance_to_itself(a: Seq<char>)
    ensures
        edit_distance(a, a) == 0,
    decreases a.len(),
{
    if a.len() > 0 {
        lemma_distance_to_itself(a.drop_first());
    }
}

/// Two strings are at distance zero exactly when they are equal.
pub proof fn lemma_distance_zero(a: Seq<char>, b: Seq<char>)
    ensures
        edit_distance(a, b) == 0 <==> a == b,
    decreases a.len() + b.len(),
{
    if a.len() == 0 || b.len() == 0 {
        if a.len() == 0 && b.len() == 0 {
            assert(a =~= b);
        }
    } else {
        lemma_distance_zero(a.drop_first(), b.drop_first());
        if a == b {
            assert(a.drop_first() =~= b.drop_first());
        }
        if a[0] == b[0] && a.drop_first() == b.drop_first() {
            assert(a =~= b) by {
                assert forall|i: int| 0 <= i < a.len() implies a[i] == b[i] by {
                    if i > 0 {
                        assert(a[i] == a.drop_first()[i - 1]);
                        assert(b[i] == b.drop_first()[i - 1]);
                    }
                }
            }
        }
    }
}

/// No dash of one string faces an underscore of the other, or the other
/// way round.
pub open spec fn no_dash_facing_underscore(a: Seq<char>, b: Seq<char>) -> bool {
    forall|i: int, j: int|
        0 <= i < a.len() && 0 <= j < b.len() ==> !#[trigger] dash_and_underscore(a[i], b[j])
}

/// Dropping the first character of either string keeps
/// `no_dash_facing_underscore`.
proof fn lemma_no_dash_facing_underscore_rests(a: Seq<char>, b: Seq<char>)
    requires
        no_dash_facing_underscore(a, b),
        a.len() > 0,
        b.len() > 0,
    ensures
        no_dash_facing_underscore(a.drop_first(), b),
        no_dash_facing_underscore(a, b.drop_first()),
        no_dash_facing_underscore(a.drop_first(), b.drop_first()),
        !dash_and_underscore(a[0], b[0]),
{
    assert(!dash_and_underscore(a[0], b[0]));
    assert forall|i: int, j: int|
        0 <= i < a.drop_first().len() && 0 <= j < b.len() implies !#[trigger] dash_and_underscore(
        a.drop_first()[i],
        b[j],
    ) by {
        assert(!dash_and_underscore(a[i + 1], b[j]));
    }
    assert forall|i: int, j: int|
        0 <= i < a.len() && 0 <= j < b.drop_first().len() implies !#[trigger] dash_and_underscore(
        a[i],
        b.drop_first()[j],
    ) by {
        assert(!dash_and_underscore(a[i], b[j + 1]));
    }
    assert forall|i: int, j: int|
        0 <= i < a.drop_first().len() && 0 <= j < b.drop_first().len() implies !#[trigger] dash_and_underscore(
        a.drop_first()[i],
        b.drop_first()[j],
    ) by {
        assert(!dash_and_underscore(a[i + 1], b[j + 1]));
    }
}

/// Adding `t` at the end of a string costs exactly the length of `t`: the
/// distance from a string to one that extends it is the number of
/// characters to insert, and the other way round the number to delete.
pub proof fn lemma_distance_to_extension(a: Seq<char>, t: Seq<char>)
    ensures
        edit_distance(a, a + t) == t.len(),
        edit_distance(a + t, a) == t.len(),
    decreases a.len(),
{
    if a.len() == 0 {
        assert(a + t =~= t);
    } else {
        lemma_distance_to_extension(a.drop_first(), t);
        assert((a + t).drop_first() =~= a.drop_first() + t);
        assert((a + t)[0] == a[0]);
    }
    lemma_distance_symmetric(a, a + t);
}

/// A common beginning does not change the distance.
pub proof fn lemma_distance_common_prefix(p: Seq<char>, a: Seq<char>, b: Seq<char>)
    ensures
        edit_distance(p + a, p + b) == edit_distance(a, b),
    decreases p.len(),
{
    if p.len() == 0 {
        assert(p + a =~= a);
        assert(p + b =~= b);
    } else {
        lemma_distance_common_prefix(p.drop_first(), a, b);
        assert((p + a).drop_first() =~= p.drop_first() + a);
        assert((p + b).drop_first() =~= p.drop_first() + b);
        assert((p + a)[0] == p[0] && (p + b)[0] == p[0]);
    }
}

/// Where no dash faces an underscore, one edit changes the distance by at
/// most one: the distance never exceeds one plus the distance after
/// deleting the first character of `a`, after deleting the first character
/// of `b`, or after replacing one by the other; deleting a first character
/// never takes the distance down by more than one; and a common first
/// character costs nothing.
pub proof fn lemma_distance_one_edit(a: Seq<char>, b: Seq<char>)
    requires
        no_dash_facing_underscore(a, b),
    ensures
        a.len() > 0 ==> edit_distance(a, b) <= 1 + edit_distance(a.drop_first(), b),
        b.len() > 0 ==> edit_distance(a, b) <= 1 + edit_distance(a, b.drop_first()),
        a.len() > 0 && b.len() > 0 ==> edit_distance(a, b) <= 1 + edit_distance(a.drop_first(), b.drop_first()),
        a.len() > 0 ==> edit_distance(a.drop_first(), b) <= 1 + edit_distance(a, b),
        b.len() > 0 ==> edit_distance(a, b.drop_first()) <= 1 + edit_distance(a, b),
        a.len() > 0 && b.len() > 0 && a[0] == b[0] ==> edit_distance(a, b) == edit_distance(
            a.drop_first(),
            b.drop_first(),
        ),
    decreases a.len() + b.len(),
{
    lemma_distance_bounds(a, b);
    if a.len() > 0 {
        lemma_distance_bounds(a.drop_first(), b);
    }
    if b.len() > 0 {
        lemma_distance_bounds(a, b.drop_first());
    }
    if a.len() > 0 && b.len() > 0 {
        lemma_no_dash_facing_underscore_rests(a, b);
        lemma_distance_one_edit(a.drop_first(), b);
        lemma_distance_one_edit(a, b.drop_first());
        lemma_distance_one_edit(a.drop_first(), b.drop_first());
    }
}

/// The distance is at least the difference of the lengths, and, where no
/// dash faces an underscore, at most the larger length.
pub proof fn lemma_distance_bounds(a: Seq<char>, b: Seq<char>)
    ensures
        a.len() - b.len() <= edit_distance(a, b),
        b.len() - a.len() <= edit_distance(a, b),
        no_dash_facing_underscore(a, b) ==> edit_distance(a, b) <= longer(a, b),
    decreases a.len() + b.len(),
{
    if a.len() == 0 || b.len() == 0 {
    } else {
        lemma_distance_bounds(a.drop_first(), b.drop_first());
        lemma_distance_bounds(a.drop_first(), b);
        lemma_distance_bounds(a, b.drop_first());
        if no_dash_facing_underscore(a, b) {
            lemma_no_dash_facing_underscore_rests(a, b);
        }
    }
}

} // verus!

verus! {

/// How far a candidate is from the search term: the edit distance over the
/// length of the longer of the two strings, kept as an exact fraction. A
/// fraction with a zero denominator stands for zero (both strings empty).
#[derive(Clone, Copy, Debug, PartialEq, Eq, Structural)]
pub struct Score {
    pub distance: usize,
    pub longest: usize,
}

impl Score {
    /// Numerator of the score as a fraction over `denominator`.
    pub open spec fn numerator(self) -> int {
        if self.longest == 0 { 0 } else { self.distance as int }
    }

    /// Denominator of the score, never zero.
    pub open spec fn denominator(self) -> int {
        if self.longest == 0 { 1 } else { self.longest as int }
    }

    /// `self` stands for a smaller number than `other`.
    pub open spec fn less_than(self, other: Score) -> bool {
        self.numerator() * other.denominator() < other.numerator() * self.denominator()
    }

    /// The score one, that every entry starts from in a ranking.
    pub open spec fn worst() -> Score {
        Score { distance: 1, longest: 1 }
    }

    /// Whether `self` stands for a smaller number than `other`.
    pub fn is_less_than(&self, other: &Score) -> (res: bool)
        ensures
            res == self.less_than(*other),
    {
        let (n1, d1): (u128, u128) = if self.longest == 0 { (0, 1) } else {
            (self.distance as u128, self.longest as u128)
        };
        let (n2, d2): (u128, u128) = if other.longest == 0 { (0, 1) } else {
            (other.distance as u128, other.longest as u128)
        };
        proof {
            lemma_product_fits(n1, d2);
            lemma_product_fits(n2, d1);
        }
        n1 * d2 < n2 * d1
    }
}

proof fn lemma_product_fits(a: u128, b: u128)
    requires
        a <= usize::MAX,
        b <= usize::MAX,
    ensures
        a * b <= u128::MAX,
{
    assert(a * b <= usize::MAX * usize::MAX) by (nonlinear_arith)
        requires
            a <= usize::MAX,
            b <= usize::MAX,
    ;
}

/// The score of `candidate` against `term`.
pub open spec fn score_of(term: Seq<char>, candidate: Seq<char>) -> Score {
    Score { distance: edit_distance(term, candidate) as usize, longest: longer(term, candidate) as usize }
}

/// The scores of every candidate against `term`, in order.
pub open spec fn scores(term: Seq<char>, candidates: Seq<Seq<char>>) -> Seq<Score> {
    Seq::new(candidates.len(), |i: int| score_of(term, candidates[i]))
}

/// The memo table for `term` and `candidate` fits in memory.
pub open spec fn fits_table(term: Seq<char>, candidate: Seq<char>) -> bool {
    &&& term.len() * candidate.len() <= usize::MAX
    &&& 3 * (term.len() + candidate.len()) <= i64::MAX
    &&& 3 * (term.len() + candidate.len()) <= usize::MAX
}

/// A score never exceeds three, and where no dash faces an underscore it
/// never exceeds one.
pub proof fn lemma_score_bounds(term: Seq<char>, candidate: Seq<char>)
    requires
        fits_table(term, candidate),
    ensures
        score_of(term, candidate).distance <= 3 * score_of(term, candidate).longest,
        no_dash_facing_underscore(term, candidate) ==> score_of(term, candidate).distance <= score_of(
            term,
            candidate,
        ).longest,
        no_dash_facing_underscore(term, candidate) ==> !Score::worst().less_than(score_of(term, candidate)),
{
    lemma_distance_bounds(term, candidate);
    lemma_distance_upper_bound(term, candidate);
}

/// Scores every candidate of `lst` against `term`.
pub fn search_in_chars(term: &[char], lst: &[&[char]]) -> (res: Vec<Score>)
    requires
        forall|i: int| 0 <= i < lst@.len() ==> fits_table(term@, #[trigger] lst@[i]@),
    ensures
        res@ == scores(term@, lst@.map_values(|s: &[char]| s@)),
        res@.len() == lst@.len(),
        forall|i: int| 0 <= i < lst@.len() ==> #[trigger] res@[i] == score_of(term@, lst@[i]@),
{
    let mut res: Vec<Score> = Vec::new();
    let mut i: usize = 0;
    while i < lst.len()
        invariant
            i <= lst@.len(),
            res@.len() == i,
            forall|k: int| 0 <= k < lst@.len() ==> fits_table(term@, #[trigger] lst@[k]@),
            forall|k: int| 0 <= k < i ==> #[trigger] res@[k] == score_of(term@, lst@[k]@),
        decreases lst@.len() - i,
    {
        let other: &[char] = lst[i];
        assert(fits_table(term@, lst@[i as int]@));
        let mut lev = Levenshtein::new(term, other);
        let dist = lev.calculate();
        let max = if term.len() >= other.len() { term.len() } else { other.len() };
        res.push(Score { distance: dist, longest: max });
        i += 1;
    }
    assert(res@ =~= scores(term@, lst@.map_values(|s: &[char]| s@)));
    res
}

/// Scoring strings and scoring their characters agree: what `search` gives
/// for a list of strings is what `search_in_chars` gives for the same texts
/// as character slices.
pub proof fn lemma_search_agrees(term: Seq<char>, strs: Seq<&str>, slices: Seq<&[char]>)
    requires
        strs.len() == slices.len(),
        forall|i: int| 0 <= i < strs.len() ==> (#[trigger] strs[i])@ == slices[i]@,
    ensures
        scores(term, strs.map_values(|s: &str| s@)) == scores(term, slices.map_values(|s: &[char]| s@)),
{
    assert(strs.map_values(|s: &str| s@) =~= slices.map_values(|s: &[char]| s@));
}

/// Scores every string of `lst` against `term`.
pub fn search(term: &str, lst: &[&str]) -> (res: Vec<Score>)
    requires
        forall|i: int| 0 <= i < lst@.len() ==> fits_table(term@, #[trigger] lst@[i]@),
    ensures
        res@ == scores(term@, lst@.map_values(|s: &str| s@)),
        res@.len() == lst@.len(),
        forall|i: int| 0 <= i < lst@.len() ==> #[trigger] res@[i] == score_of(term@, lst@[i]@),
{
    let term_chars = crate::text::chars_of(term);
    let mut mapped: Vec<Vec<char>> = Vec::new();
    let mut i: usize = 0;
    while i < lst.len()
        invariant
            i <= lst@.len(),
            mapped@.len() == i,
            forall|k: int| 0 <= k < i ==> (#[trigger] mapped@[k])@ == lst@[k]@,
        decreases lst@.len() - i,
    {
        mapped.push(crate::text::chars_of(lst[i]));
        i += 1;
    }
    let mut as_slices: Vec<&[char]> = Vec::new();
    let mut j: usize = 0;
    while j < mapped.len()
        invariant
            j <= mapped@.len(),
            as_slices@.len() == j,
            forall|k: int| 0 <= k < j ==> (#[trigger] as_slices@[k])@ == mapped@[k]@,
        decreases mapped@.len() - j,
    {
        as_slices.push(mapped[j].as_slice());
        j += 1;
    }
    assert forall|k: int| 0 <= k < as_slices@.len() implies fits_table(
        term_chars@,
        #[trigger] as_slices@[k]@,
    ) by {
        assert(as_slices@[k]@ == lst@[k]@);
        assert(fits_table(term@, lst@[k]@));
    }
    let res = search_in_chars(term_chars.as_slice(), as_slices.as_slice());
    assert forall|k: int| 0 <= k < lst@.len() implies #[trigger] res@[k] == score_of(term@, lst@[k]@) by {
        assert(as_slices@[k]@ == lst@[k]@);
    }
    assert(res@ =~= scores(term@, lst@.map_values(|s: &str| s@)));
    res
}

} // verus!

verus! {

/// `a/b <= c/d` and `c/d <= e/f` give `a/b <= e/f`, and the result is strict
/// when either step is.
proof fn lemma_cross_trans(a: int, b: int, c: int, d: int, e: int, f: int)
    requires
        b > 0,
        d > 0,
        f > 0,
        a * d <= c * b,
        c * f <= e * d,
    ensures
        a * f <= e * b,
        (a * d < c * b || c * f < e * d) ==> a * f < e * b,
{
    assert(a * d * f <= c * b * f) by (nonlinear_arith)
        requires
            a * d <= c * b,
            f > 0,
    ;
    assert(c * f * b <= e * d * b) by (nonlinear_arith)
        requires
            c * f <= e * d,
            b > 0,
    ;
    assert(c * b * f == c * f * b) by (nonlinear_arith);
    assert(a * f * d <= e * b * d) by (nonlinear_arith)
        requires
            a * d * f <= e * d * b,
    ;
    assert(a * f <= e * b) by (nonlinear_arith)
        requires
            a * f * d <= e * b * d,
            d > 0,
    ;
    if a * d < c * b || c * f < e * d {
        assert(a * d * f < c * b * f || c * f * b < e * d * b) by (nonlinear_arith)
            requires
                a * d < c * b || c * f < e * d,
                b > 0,
                f > 0,
        ;
        assert(a * f * d < e * b * d) by (nonlinear_arith)
            requires
                a * d * f < c * b * f || c * f * b < e * d * b,
                a * d * f <= c * b * f,
                c * f * b <= e * d * b,
                c * b * f == c * f * b,
        ;
        assert(a * f < e * b) by (nonlinear_arith)
            requires
                a * f * d < e * b * d,
                d > 0,
        ;
    }
}

/// Comparing scores is a strict order: never `x < x`, and transitive, also
/// through scores that stand for the same number.
pub proof fn lemma_score_order(x: Score, y: Score, z: Score)
    ensures
        !x.less_than(x),
        x.less_than(y) ==> !y.less_than(x),
        x.less_than(y) && !z.less_than(y) ==> x.less_than(z),
        !y.less_than(x) && y.less_than(z) ==> x.less_than(z),
        !y.less_than(x) && !z.less_than(y) ==> !z.less_than(x),
{
    let (a, b) = (x.numerator(), x.denominator());
    let (c, d) = (y.numerator(), y.denominator());
    let (e, f) = (z.numerator(), z.denominator());
    if x.less_than(y) && !z.less_than(y) {
        lemma_cross_trans(a, b, c, d, e, f);
    }
    if !y.less_than(x) && y.less_than(z) {
        lemma_cross_trans(a, b, c, d, e, f);
    }
    if !y.less_than(x) && !z.less_than(y) {
        lemma_cross_trans(a, b, c, d, e, f);
    }
}

} // verus!
