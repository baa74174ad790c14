use vstd::prelude::*;
use itertools::Itertools;

verus! {

// ---------------------------------------------------------------------------
// Index enumerations
// ---------------------------------------------------------------------------

/// All index pairs `(i, j)` with `i < n` and `j < m`, row by row: the pairs with
/// first index `0` come first, each row in increasing second index.
pub open spec fn grid(n: nat, m: nat) -> Seq<(usize, usize)>
    decreases n,
{
    if n == 0 {
        Seq::empty()
    } else {
        grid((n - 1) as nat, m) + Seq::new(m, |j: int| ((n - 1) as usize, j as usize))
    }
}

/// All index pairs `(i, j)` with `s <= i < j < n`, in lexicographic order.
pub open spec fn ordered_pairs_from(s: nat, n: nat) -> Seq<(usize, usize)>
    decreases n - s,
{
    if s >= n {
        Seq::empty()
    } else {
        Seq::new((n - s - 1) as nat, |t: int| (s as usize, (s + 1 + t) as usize))
            + ordered_pairs_from(s + 1, n)
    }
}

/// Calls `itertools::Itertools::cartesian_product` on `0..n` and `0..m`.
/// Trusted: that it yields every pair `(i, j)` with `i < n` and `j < m` once, the
/// first index outermost and each index increasing, as the crate documents
/// (`(0..2).cartesian_product("ab".chars())` gives `(0,'a'), (0,'b'), (1,'a'), (1,'b')`).
#[verifier::external_body]
fn index_grid(n: usize, m: usize) -> (res: Vec<(usize, usize)>)
    ensures
        res@ == grid(n as nat, m as nat),
{
    (0..n).cartesian_product(0..m).collect()
}

/// Calls `itertools::Itertools::combinations` with `k = 2` on `0..n`, each
/// two-element vector turned into a pair. Trusted: that it yields every pair
/// `i < j < n` once, in lexicographic order, as the crate documents and its
/// index-advancing code (`[0, 1] -> [0, 2] -> ... -> [1, 2] -> ...`) does; none
/// when `n < 2`.
#[verifier::external_body]
fn index_pairs(n: usize) -> (res: Vec<(usize, usize)>)
    ensures
        res@ == ordered_pairs_from(0, n as nat),
{
    (0..n).combinations(2).map(|c| (c[0], c[1])).collect()
}

/// Every entry of `grid(n, m)` lies in range.
pub proof fn lemma_grid_bounds(n: nat, m: nat, t: int)
    requires
        n <= usize::MAX + 1,
        m <= usize::MAX + 1,
        0 <= t < grid(n, m).len(),
    ensures
        grid(n, m)[t].0 < n,
        grid(n, m)[t].1 < m,
    decreases n,
{
    if n > 0 {
        let prev = grid((n - 1) as nat, m);
        if t >= prev.len() {
            assert(grid(n, m)[t] == ((n - 1) as usize, (t - prev.len()) as usize));
        } else {
            assert(grid(n, m)[t] == prev[t]);
            lemma_grid_bounds((n - 1) as nat, m, t);
        }
    }
}

/// `grid(n, m)` holds every pair in range.
pub proof fn lemma_grid_index(n: nat, m: nat, i: nat, j: nat) -> (t: int)
    requires
        i < n <= usize::MAX + 1,
        j < m <= usize::MAX + 1,
    ensures
        0 <= t < grid(n, m).len(),
        grid(n, m)[t] == (i as usize, j as usize),
    decreases n,
{
    let prev = grid((n - 1) as nat, m);
    if i == n - 1 {
        let t: int = (prev.len() + j) as int;
        assert(grid(n, m)[t] == ((n - 1) as usize, j as usize));
        t
    } else {
        let t = lemma_grid_index((n - 1) as nat, m, i, j);
        assert(grid(n, m)[t] == prev[t]);
        t
    }
}

/// Every entry of `ordered_pairs_from(s, n)` is a pair `s <= i < j < n`.
pub proof fn lemma_ordered_pairs_bounds(s: nat, n: nat, t: int)
    requires
        n <= usize::MAX + 1,
        0 <= t < ordered_pairs_from(s, n).len(),
    ensures
        s <= ordered_pairs_from(s, n)[t].0,
        ordered_pairs_from(s, n)[t].0 < ordered_pairs_from(s, n)[t].1,
        ordered_pairs_from(s, n)[t].1 < n,
    decreases n - s,
{
    if s < n {
        let head = Seq::new((n - s - 1) as nat, |u: int| (s as usize, (s + 1 + u) as usize));
        if t < head.len() {
            assert(ordered_pairs_from(s, n)[t] == head[t]);
        } else {
            assert(ordered_pairs_from(s, n)[t] == ordered_pairs_from(s + 1, n)[t - head.len()]);
            lemma_ordered_pairs_bounds(s + 1, n, t - head.len());
        }
    }
}

/// `ordered_pairs_from(s, n)` holds every pair `s <= i < j < n`.
pub proof fn lemma_ordered_pairs_index(s: nat, n: nat, i: nat, j: nat) -> (t: int)
    requires
        s <= i < j < n <= usize::MAX + 1,
    ensures
        0 <= t < ordered_pairs_from(s, n).len(),
        ordered_pairs_from(s, n)[t] == (i as usize, j as usize),
    decreases n - s,
{
    let head = Seq::new((n - s - 1) as nat, |u: int| (s as usize, (s + 1 + u) as usize));
    if i == s {
        let t: int = j - s - 1;
        assert(ordered_pairs_from(s, n)[t] == head[t]);
        t
    } else {
        let u = lemma_ordered_pairs_index(s + 1, n, i, j);
        let t: int = head.len() + u;
        assert(ordered_pairs_from(s, n)[t] == ordered_pairs_from(s + 1, n)[u]);
        t
    }
}

/// No pair occurs twice in `grid(n, m)`.
pub proof fn lemma_grid_no_dup(n: nat, m: nat, t1: int, t2: int)
    requires
        n <= usize::MAX + 1,
        m <= usize::MAX + 1,
        0 <= t1 < t2 < grid(n, m).len(),
    ensures
        grid(n, m)[t1] != grid(n, m)[t2],
    decreases n,
{
    let prev = grid((n - 1) as nat, m);
    if t2 < prev.len() {
        assert(grid(n, m)[t1] == prev[t1]);
        assert(grid(n, m)[t2] == prev[t2]);
        lemma_grid_no_dup((n - 1) as nat, m, t1, t2);
    } else if t1 < prev.len() {
        assert(grid(n, m)[t1] == prev[t1]);
        lemma_grid_bounds((n - 1) as nat, m, t1);
        assert(grid(n, m)[t2] == ((n - 1) as usize, (t2 - prev.len()) as usize));
    } else {
        assert(grid(n, m)[t1] == ((n - 1) as usize, (t1 - prev.len()) as usize));
        assert(grid(n, m)[t2] == ((n - 1) as usize, (t2 - prev.len()) as usize));
    }
}

/// No pair occurs twice in `ordered_pairs_from(s, n)`.
pub proof fn lemma_ordered_pairs_no_dup(s: nat, n: nat, t1: int, t2: int)
    requires
        n <= usize::MAX + 1,
        0 <= t1 < t2 < ordered_pairs_from(s, n).len(),
    ensures
        ordered_pairs_from(s, n)[t1] != ordered_pairs_from(s, n)[t2],
    decreases n - s,
{
    let head = Seq::new((n - s - 1) as nat, |u: int| (s as usize, (s + 1 + u) as usize));
    let tail = ordered_pairs_from(s + 1, n);
    if t2 < head.len() {
        assert(ordered_pairs_from(s, n)[t1] == head[t1]);
        assert(ordered_pairs_from(s, n)[t2] == head[t2]);
    } else if t1 < head.len() {
        assert(ordered_pairs_from(s, n)[t1] == head[t1]);
        assert(ordered_pairs_from(s, n)[t2] == tail[t2 - head.len()]);
        lemma_ordered_pairs_bounds(s + 1, n, t2 - head.len());
    } else {
        assert(ordered_pairs_from(s, n)[t1] == tail[t1 - head.len()]);
        assert(ordered_pairs_from(s, n)[t2] == tail[t2 - head.len()]);
        lemma_ordered_pairs_no_dup(s + 1, n, t1 - head.len(), t2 - head.len());
    }
}

// ---------------------------------------------------------------------------
// Commutator pairs of a round
// ---------------------------------------------------------------------------

/// The commutators `[old[j], new[i]]` of a round, for `i` over `new` and, inside,
/// `j` over `old`; each as the pair of its two operands.
pub open spec fn old_new_pairs(new: Seq<usize>, old: Seq<usize>) -> Seq<(usize, usize)> {
    grid(new.len(), old.len()).map_values(|p: (usize, usize)| (old[p.1 as int], new[p.0 as int]))
}

/// The commutators `[new[k], new[l]]` for `k < l`, in lexicographic order of `(k, l)`.
pub open spec fn new_new_pairs(new: Seq<usize>) -> Seq<(usize, usize)> {
    ordered_pairs_from(0, new.len()).map_values(
        |p: (usize, usize)| (new[p.0 as int], new[p.1 as int]),
    )
}

/// The operand pairs of the commutators between the new elements and the old ones:
/// for each new element in turn, its commutator with every old element, the old
/// element on the left.
pub fn new_old_commutators(new: &Vec<usize>, old: &Vec<usize>) -> (res: Vec<(usize, usize)>)
    ensures
        res@ == old_new_pairs(new@, old@),
{
    let idx = index_grid(new.len(), old.len());
    let mut res: Vec<(usize, usize)> = Vec::new();
    let mut t: usize = 0;
    while t < idx.len()
        invariant
            idx@ == grid(new@.len(), old@.len()),
            new@.len() <= usize::MAX,
            old@.len() <= usize::MAX,
            t <= idx@.len(),
            res@ =~= old_new_pairs(new@, old@).take(t as int),
        decreases idx.len() - t,
    {
        proof {
            lemma_grid_bounds(new@.len(), old@.len(), t as int);
        }
        let (i, j) = idx[t];
        res.push((old[j], new[i]));
        t = t + 1;
    }
    res
}

/// The operand pairs of the commutators among the new elements: every two of them,
/// the earlier one on the left, in lexicographic order of their positions.
pub fn new_new_commutator(new: &Vec<usize>) -> (res: Vec<(usize, usize)>)
    ensures
        res@ == new_new_pairs(new@),
{
    let idx = index_pairs(new.len());
    let mut res: Vec<(usize, usize)> = Vec::new();
    let mut t: usize = 0;
    while t < idx.len()
        invariant
            idx@ == ordered_pairs_from(0, new@.len()),
            new@.len() <= usize::MAX,
            t <= idx@.len(),
            res@ =~= new_new_pairs(new@).take(t as int),
        decreases idx.len() - t,
    {
        proof {
            lemma_ordered_pairs_bounds(0, new@.len(), t as int);
        }
        let (k, l) = idx[t];
        res.push((new[k], new[l]));
        t = t + 1;
    }
    res
}


// ---------------------------------------------------------------------------
// The search for the dynamical Lie algebra
// ---------------------------------------------------------------------------

/// The commutator of `x` and `y` (in either order) has been examined.
pub open spec fn covered(examined: Set<(usize, usize)>, x: usize, y: usize) -> bool {
    examined.contains((x, y)) || examined.contains((y, x))
}

/// The commutator of `x` and `y` (in either order) is still to be examined in the
/// current round, at or after position `cursor`.
pub open spec fn scheduled(candidates: Seq<(usize, usize)>, cursor: nat, x: usize, y: usize) -> bool {
    exists|t: int|
        cursor <= t < candidates.len() && (#[trigger] candidates[t] == (x, y) || candidates[t] == (
        y,
        x,
        ))
}

/// `a` comes strictly before `b` in lexicographic order.
pub open spec fn lex_below(a: (nat, nat, nat), b: (nat, nat, nat)) -> bool {
    a.0 < b.0 || (a.0 == b.0 && (a.1 < b.1 || (a.1 == b.1 && a.2 < b.2)))
}

/// `p` and `q` name the same commutator, up to the order of the operands.
pub open spec fn same_pair(p: (usize, usize), q: (usize, usize)) -> bool {
    p == q || p == (q.1, q.0)
}

/// Every two distinct elements of `elements` have had their commutator examined.
pub open spec fn closed_under_examination(elements: Seq<usize>, examined: Set<(usize, usize)>) -> bool {
    forall|x: usize, y: usize|
        elements.contains(x) && elements.contains(y) && x != y ==> #[trigger] covered(examined, x, y)
}

/// No element of `a` occurs in `b`.
pub open spec fn apart(a: Seq<usize>, b: Seq<usize>) -> bool {
    forall|x: usize| #[trigger] a.contains(x) ==> !b.contains(x)
}

/// What a step of the search asks its driver to do: reduce a waiting generator, or
/// a commutator of two elements (left operand first), against the current elements,
/// and report whether a nonzero remainder is left.
#[derive(Debug, Clone, Copy, PartialEq, Eq, Structural)]
pub enum DlaStep {
    Generator(usize),
    Commutator(usize, usize),
}

/// The abstract state of the search.
///
/// Elements of the algebra are named by numbers: the `basis_len` orthogonalised
/// generators are `0 .. basis_len`, and each accepted commutator gets the next
/// unused number, `next_id`. Generators wait in `pending` and are taken from its
/// end; the one being checked is `probe`, and those found dependent on the
/// elements so far are `dropped`. `old` holds the elements whose commutators with
/// each other have been, or in the current round will be, examined; `new` the
/// elements found in the current round; `candidates[cursor..]` the commutators of
/// the current round still to examine. `examined` records every commutator
/// examined so far.
#[verifier::ext_equal]
pub struct DlaState {
    pub pending: Seq<usize>,
    pub old: Seq<usize>,
    pub new: Seq<usize>,
    pub candidates: Seq<(usize, usize)>,
    pub cursor: nat,
    pub probe: Option<usize>,
    pub maximum: nat,
    pub next_id: nat,
    pub basis_len: nat,
    pub finished: bool,
    pub normalize: bool,
    pub examined: Set<(usize, usize)>,
    pub dropped: Set<usize>,
}

impl DlaState {
    /// Before the first step: every generator waits, nothing is found yet.
    pub open spec fn start(basis_len: nat, maximum: nat) -> DlaState {
        DlaState {
            pending: Seq::new(basis_len, |i: int| i as usize),
            old: Seq::empty(),
            new: Seq::empty(),
            candidates: Seq::empty(),
            cursor: 0,
            probe: None,
            maximum,
            next_id: basis_len,
            basis_len,
            finished: false,
            normalize: false,
            examined: Set::empty(),
            dropped: Set::empty(),
        }
    }

    /// The search over `basis_len` generators in an algebra of dimension at most
    /// `maximum`, at its first step.
    pub open spec fn initial(basis_len: nat, maximum: nat) -> DlaState {
        DlaState::start(basis_len, maximum).settle()
    }

    /// The elements of the round join the old group.
    pub open spec fn merged(self) -> DlaState {
        DlaState { old: self.old + self.new, new: Seq::empty(), ..self }
    }

    /// A new round: the commutators of the new elements with the old ones and with
    /// each other are scheduled, and the new elements join the old group.
    pub open spec fn start_round(self) -> DlaState {
        DlaState {
            candidates: old_new_pairs(self.new, self.old) + new_new_pairs(self.new),
            cursor: 0,
            ..self.merged()
        }
    }

    /// The next waiting generator is to be checked; with none left the search is
    /// finished, with the old group as the result, to be normalised.
    pub open spec fn next_generator(self) -> DlaState {
        if self.pending.len() > 0 {
            DlaState {
                probe: Some(self.pending.last()),
                pending: self.pending.drop_last(),
                ..self
            }
        } else {
            DlaState { finished: true, normalize: true, ..self }
        }
    }

    /// What the search does when a round has no commutator left and no generator is
    /// being checked: a further round over the elements just found, unless it
    /// schedules nothing; else the next waiting generator.
    pub open spec fn settle(self) -> DlaState {
        if self.finished || self.probe is Some || self.cursor < self.candidates.len() {
            self
        } else if self.new.len() > 0 {
            let t = self.start_round();
            if t.candidates.len() > 0 {
                t
            } else {
                t.next_generator()
            }
        } else {
            self.next_generator()
        }
    }

    /// The commutator to examine next.
    pub open spec fn current(self) -> (usize, usize) {
        self.candidates[self.cursor as int]
    }

    /// An independent remainder found while the algebra already has `maximum`
    /// elements ends the search with all elements so far, not normalised.
    pub open spec fn saturates(self, independent: bool) -> bool {
        independent && self.old.len() + self.new.len() == self.maximum
    }

    /// The step after the current generator or commutator was found dependent on
    /// the elements so far (`independent == false`), or independent of them.
    pub open spec fn report(self, independent: bool) -> DlaState {
        if self.saturates(independent) {
            DlaState {
                finished: true,
                normalize: false,
                probe: None,
                examined: if self.probe is Some {
                    self.examined
                } else {
                    self.examined.insert(self.current())
                },
                ..self.merged()
            }
        } else {
            self.advance(independent).settle()
        }
    }

    /// The outcome recorded: an independent generator becomes the only new element,
    /// a dependent one is dropped; a commutator is marked as examined and the cursor
    /// moved past it, an independent one joining the new group under the next
    /// unused number.
    pub open spec fn advance(self, independent: bool) -> DlaState {
        match self.probe {
            Some(g) => if independent {
                DlaState { probe: None, new: seq![g], ..self }
            } else {
                DlaState { probe: None, dropped: self.dropped.insert(g), ..self }
            },
            None => DlaState {
                examined: self.examined.insert(self.current()),
                new: if independent {
                    self.new.push(self.next_id as usize)
                } else {
                    self.new
                },
                next_id: if independent {
                    self.next_id + 1
                } else {
                    self.next_id
                },
                cursor: self.cursor + 1,
                ..self
            },
        }
    }

    /// The number under which an accepted remainder is kept: the generator's own,
    /// or the next unused one for a commutator.
    pub open spec fn accepted_as(self, independent: bool) -> Option<usize> {
        if !independent || self.saturates(independent) {
            None
        } else {
            match self.probe {
                Some(g) => Some(g),
                None => Some(self.next_id as usize),
            }
        }
    }

    /// How much work the search has left, compared lexicographically: generators
    /// still to check; room left in the algebra; commutators still to examine, in
    /// the current round and among the elements found in it.
    pub open spec fn measure(self) -> (nat, nat, nat) {
        (
            self.pending.len() + if self.probe is Some {
                1nat
            } else {
                0nat
            },
            (self.maximum - (self.old.len() + self.new.len())) as nat,
            (self.candidates.len() - self.cursor) as nat + old_new_pairs(self.new, self.old).len()
                + new_new_pairs(self.new).len(),
        )
    }

    pub open spec fn ids_below(self) -> bool {
        &&& forall|x: usize| #[trigger] self.pending.contains(x) ==> x < self.basis_len
        &&& forall|x: usize| #[trigger] self.old.contains(x) ==> x < self.next_id
        &&& forall|x: usize| #[trigger] self.new.contains(x) ==> x < self.next_id
        &&& forall|x: usize| #[trigger] self.dropped.contains(x) ==> x < self.basis_len
        &&& self.probe matches Some(g) ==> g < self.basis_len
    }

    pub open spec fn distinct(self) -> bool {
        &&& self.pending.no_duplicates()
        &&& self.old.no_duplicates()
        &&& self.new.no_duplicates()
        &&& apart(self.pending, self.old)
        &&& apart(self.pending, self.new)
        &&& apart(self.old, self.new)
        &&& self.probe matches Some(g) ==> !self.pending.contains(g) && !self.old.contains(g)
            && !self.new.contains(g)
        &&& forall|x: usize|
            #[trigger] self.dropped.contains(x) ==> !self.pending.contains(x) && !self.old.contains(
                x,
            ) && !self.new.contains(x) && self.probe != Some(x)
    }

    /// Where every element lives is consistent: numbers in range, nothing twice.
    pub open spec fn elements_ok(self) -> bool {
        &&& self.basis_len <= self.next_id <= usize::MAX
        &&& self.ids_below()
        &&& self.distinct()
    }

    /// Every generator waits, is being checked, is an element, or was dropped.
    /// `x` waits, is being checked, is an element, or was dropped.
    pub open spec fn holds(self, x: usize) -> bool {
        self.pending.contains(x) || self.old.contains(x) || self.new.contains(x) || self.probe
            == Some(x) || self.dropped.contains(x)
    }

    pub open spec fn basis_kept(self) -> bool {
        forall|b: nat| b < self.basis_len ==> #[trigger] self.holds(b as usize)
    }

    pub open spec fn candidates_in_old(self) -> bool {
        forall|t: int|
            self.cursor <= t < self.candidates.len() ==> self.old.contains(
                (#[trigger] self.candidates[t]).0,
            ) && self.old.contains(self.candidates[t].1) && self.candidates[t].0
                != self.candidates[t].1
    }

    pub open spec fn closure_so_far(self) -> bool {
        forall|x: usize, y: usize|
            self.old.contains(x) && self.old.contains(y) && x != y ==> #[trigger] covered(
                self.examined,
                x,
                y,
            ) || scheduled(self.candidates, self.cursor, x, y)
    }

    pub open spec fn examined_in_old(self) -> bool {
        forall|p: (usize, usize)|
            #[trigger] self.examined.contains(p) ==> self.old.contains(p.0) && self.old.contains(p.1)
                && p.0 != p.1
    }

    /// No commutator still to examine has been examined, and none is scheduled twice.
    pub open spec fn schedule_fresh(self) -> bool {
        &&& forall|t: int|
            self.cursor <= t < self.candidates.len() ==> !covered(
                self.examined,
                (#[trigger] self.candidates[t]).0,
                self.candidates[t].1,
            )
        &&& forall|t1: int, t2: int|
            self.cursor <= t1 < t2 < self.candidates.len() ==> !same_pair(
                #[trigger] self.candidates[t1],
                #[trigger] self.candidates[t2],
            )
    }

    /// What holds of every state, whether or not the search is between steps.
    pub open spec fn core_inv(self) -> bool {
        &&& self.old.len() + self.new.len() <= self.maximum <= usize::MAX
        &&& self.cursor <= self.candidates.len()
        &&& self.probe is Some ==> self.new.len() == 0 && self.cursor == self.candidates.len()
            && !self.finished
        &&& self.finished && self.normalize ==> self.pending.len() == 0 && self.new.len() == 0
            && self.cursor == self.candidates.len()
        &&& self.finished && !self.normalize ==> self.new.len() == 0 && self.old.len()
            == self.maximum
        &&& self.elements_ok()
        &&& self.candidates_in_old()
        &&& self.examined_in_old()
        &&& !self.finished || self.normalize ==> self.closure_so_far() && self.basis_kept()
        &&& !self.finished ==> self.schedule_fresh()
    }

    /// What holds of every state the search reaches.
    pub open spec fn inv(self) -> bool {
        &&& self.core_inv()
        &&& !self.finished ==> self.probe is Some || self.cursor < self.candidates.len()
    }
}

proof fn lemma_concat_contains(a: Seq<usize>, b: Seq<usize>)
    ensures
        forall|x: usize| #[trigger] (a + b).contains(x) <==> a.contains(x) || b.contains(x),
{
    assert forall|x: usize| #[trigger] (a + b).contains(x) <==> a.contains(x) || b.contains(x) by {
        if (a + b).contains(x) {
            let i = choose|i: int| 0 <= i < (a + b).len() && (a + b)[i] == x;
            if i < a.len() {
                assert(a[i] == x);
            } else {
                assert(b[i - a.len()] == x);
            }
        }
        if a.contains(x) {
            let i = choose|i: int| 0 <= i < a.len() && a[i] == x;
            assert((a + b)[i] == x);
        }
        if b.contains(x) {
            let i = choose|i: int| 0 <= i < b.len() && b[i] == x;
            assert((a + b)[a.len() + i] == x);
        }
    }
}

proof fn lemma_push_contains(a: Seq<usize>, v: usize)
    ensures
        forall|x: usize| #[trigger] a.push(v).contains(x) <==> a.contains(x) || x == v,
        a.no_duplicates() && !a.contains(v) ==> a.push(v).no_duplicates(),
{
    assert forall|x: usize| #[trigger] a.push(v).contains(x) <==> a.contains(x) || x == v by {
        if a.push(v).contains(x) {
            let i = choose|i: int| 0 <= i < a.push(v).len() && a.push(v)[i] == x;
            if i < a.len() {
                assert(a[i] == x);
            }
        }
        if a.contains(x) {
            let i = choose|i: int| 0 <= i < a.len() && a[i] == x;
            assert(a.push(v)[i] == x);
        }
        if x == v {
            assert(a.push(v)[a.len() as int] == x);
        }
    }
    if a.no_duplicates() && !a.contains(v) {
        assert forall|i: int, j: int|
            0 <= i < a.push(v).len() && 0 <= j < a.push(v).len() && i != j implies a.push(v)[i]
            != a.push(v)[j] by {
            if i < a.len() && j < a.len() {
            } else if i < a.len() {
                assert(a.contains(a[i]));
            } else if j < a.len() {
                assert(a.contains(a[j]));
            }
        }
    }
}

proof fn lemma_drop_last(a: Seq<usize>)
    requires
        a.len() > 0,
        a.no_duplicates(),
    ensures
        forall|x: usize| #[trigger] a.contains(x) <==> a.drop_last().contains(x) || x == a.last(),
        a.drop_last().no_duplicates(),
        !a.drop_last().contains(a.last()),
        a.contains(a.last()),
{
    let d = a.drop_last();
    assert(a[a.len() - 1] == a.last());
    assert forall|x: usize| #[trigger] a.contains(x) <==> d.contains(x) || x == a.last() by {
        if a.contains(x) {
            let i = choose|i: int| 0 <= i < a.len() && a[i] == x;
            if i < a.len() - 1 {
                assert(d[i] == x);
            }
        }
        if d.contains(x) {
            let i = choose|i: int| 0 <= i < d.len() && d[i] == x;
            assert(a[i] == x);
        }
    }
    assert forall|i: int, j: int| 0 <= i < d.len() && 0 <= j < d.len() && i != j implies d[i]
        != d[j] by {
        assert(d[i] == a[i]);
        assert(d[j] == a[j]);
    }
    if d.contains(a.last()) {
        let i = choose|i: int| 0 <= i < d.len() && d[i] == a.last();
        assert(a[i] == a[a.len() - 1]);
    }
}

/// Every generator stays accounted for when nothing that `s` holds is lost.
proof fn lemma_basis_carried(s: DlaState, t: DlaState)
    requires
        s.basis_kept(),
        t.basis_len == s.basis_len,
        forall|x: usize| s.holds(x) ==> #[trigger] t.holds(x),
    ensures
        t.basis_kept(),
{
    assert forall|b: nat| b < t.basis_len implies #[trigger] t.holds(b as usize) by {
        assert(s.holds(b as usize));
    }
}

/// Merging the round's elements into the old group keeps every element where it
/// belongs.
proof fn lemma_merge(s: DlaState)
    requires
        s.elements_ok(),
    ensures
        s.merged().elements_ok(),
        forall|x: usize| #[trigger] (s.old + s.new).contains(x) <==> s.old.contains(x) || s.new.contains(x),
{
    lemma_concat_contains(s.old, s.new);
    assert forall|i: int, j: int| 0 <= i < s.old.len() && 0 <= j < s.new.len() implies s.old[i]
        != s.new[j] by {
        assert(s.old.contains(s.old[i]));
        assert(s.new.contains(s.new[j]));
    }
    vstd::seq_lib::lemma_no_dup_in_concat(s.old, s.new);
    let t = s.merged();
    assert forall|x: usize| #[trigger] t.new.contains(x) implies false by {}
    assert(apart(t.pending, t.old));
    assert(apart(t.old, t.new));
    assert(apart(t.pending, t.new));
}

/// The state before the first step is consistent.
proof fn lemma_start(basis_len: nat, maximum: nat)
    requires
        basis_len <= usize::MAX,
        maximum <= usize::MAX,
    ensures
        DlaState::start(basis_len, maximum).core_inv(),
{
    let s = DlaState::start(basis_len, maximum);
    assert forall|x: usize| #[trigger] s.pending.contains(x) implies x < basis_len by {
        let i = choose|i: int| 0 <= i < s.pending.len() && s.pending[i] == x;
    }
    assert forall|b: nat| b < s.basis_len implies #[trigger] s.holds(b as usize) by {
        assert(s.pending[b as int] == b as usize);
    }
    assert(s.elements_ok());
}

proof fn lemma_start_round(s: DlaState)
    requires
        s.core_inv(),
        !s.finished,
        s.probe is None,
        s.cursor == s.candidates.len(),
        s.new.len() > 0,
    ensures
        s.start_round().core_inv(),
{
    let t = s.start_round();
    let n = s.new.len();
    let m = s.old.len();
    let onp = old_new_pairs(s.new, s.old);
    let nnp = new_new_pairs(s.new);
    lemma_merge(s);
    assert(t.elements_ok());
    lemma_basis_carried(s, t);
    assert forall|u: int| t.cursor <= u < t.candidates.len() implies t.old.contains(
        (#[trigger] t.candidates[u]).0,
    ) && t.old.contains(t.candidates[u].1) && t.candidates[u].0 != t.candidates[u].1 by {
        if u < onp.len() {
            lemma_grid_bounds(n, m, u);
            let p = grid(n, m)[u];
            assert(t.candidates[u] == onp[u]);
            assert(s.old.contains(s.old[p.1 as int]));
            assert(s.new.contains(s.new[p.0 as int]));
        } else {
            let v = u - onp.len();
            lemma_ordered_pairs_bounds(0, n, v);
            let p = ordered_pairs_from(0, n)[v];
            assert(t.candidates[u] == nnp[v]);
            assert(s.new.contains(s.new[p.0 as int]));
            assert(s.new.contains(s.new[p.1 as int]));
        }
    }
    assert forall|x: usize, y: usize|
        t.old.contains(x) && t.old.contains(y) && x != y implies #[trigger] covered(
        t.examined,
        x,
        y,
    ) || scheduled(t.candidates, t.cursor, x, y) by {
        if s.old.contains(x) && s.old.contains(y) {
            assert(covered(s.examined, x, y) || scheduled(s.candidates, s.cursor, x, y));
        } else if s.old.contains(x) && s.new.contains(y) {
            let j = choose|j: int| 0 <= j < s.old.len() && s.old[j] == x;
            let i = choose|i: int| 0 <= i < s.new.len() && s.new[i] == y;
            let w = lemma_grid_index(n, m, i as nat, j as nat);
            assert(t.candidates[w] == onp[w]);
            assert(t.candidates[w] == (x, y));
        } else if s.new.contains(x) && s.old.contains(y) {
            let j = choose|j: int| 0 <= j < s.old.len() && s.old[j] == y;
            let i = choose|i: int| 0 <= i < s.new.len() && s.new[i] == x;
            let w = lemma_grid_index(n, m, i as nat, j as nat);
            assert(t.candidates[w] == onp[w]);
            assert(t.candidates[w] == (y, x));
        } else {
            let k = choose|k: int| 0 <= k < s.new.len() && s.new[k] == x;
            let l = choose|l: int| 0 <= l < s.new.len() && s.new[l] == y;
            if k < l {
                let w = lemma_ordered_pairs_index(0, n, k as nat, l as nat);
                assert(t.candidates[onp.len() + w] == nnp[w]);
                assert(t.candidates[onp.len() + w] == (x, y));
            } else {
                let w = lemma_ordered_pairs_index(0, n, l as nat, k as nat);
                assert(t.candidates[onp.len() + w] == nnp[w]);
                assert(t.candidates[onp.len() + w] == (y, x));
            }
        }
    }
    assert forall|u: int| t.cursor <= u < t.candidates.len() implies !covered(
        t.examined,
        (#[trigger] t.candidates[u]).0,
        t.candidates[u].1,
    ) by {
        let k: int = if u < onp.len() {
            lemma_grid_bounds(n, m, u);
            assert(t.candidates[u] == onp[u]);
            grid(n, m)[u].0 as int
        } else {
            lemma_ordered_pairs_bounds(0, n, u - onp.len());
            assert(t.candidates[u] == nnp[u - onp.len()]);
            ordered_pairs_from(0, n)[u - onp.len()].1 as int
        };
        assert(t.candidates[u].1 == s.new[k]);
        assert(s.new.contains(s.new[k]));
        if s.old.contains(s.new[k]) {
        }
    }
    assert forall|u1: int, u2: int| t.cursor <= u1 < u2 < t.candidates.len() implies !same_pair(
        #[trigger] t.candidates[u1],
        #[trigger] t.candidates[u2],
    ) by {
        if u2 < onp.len() {
            lemma_grid_bounds(n, m, u1);
            lemma_grid_bounds(n, m, u2);
            lemma_grid_no_dup(n, m, u1, u2);
            let p1 = grid(n, m)[u1];
            let p2 = grid(n, m)[u2];
            assert(t.candidates[u1] == onp[u1]);
            assert(t.candidates[u2] == onp[u2]);
            assert(s.old.contains(s.old[p1.1 as int]));
            assert(s.new.contains(s.new[p2.0 as int]));
            if p1.1 != p2.1 {
                assert(s.old[p1.1 as int] != s.old[p2.1 as int]);
            } else {
                assert(s.new[p1.0 as int] != s.new[p2.0 as int]);
            }
        } else if u1 < onp.len() {
            lemma_grid_bounds(n, m, u1);
            lemma_ordered_pairs_bounds(0, n, u2 - onp.len());
            let p1 = grid(n, m)[u1];
            let p2 = ordered_pairs_from(0, n)[u2 - onp.len()];
            assert(t.candidates[u1] == onp[u1]);
            assert(t.candidates[u2] == nnp[u2 - onp.len()]);
            assert(s.old.contains(s.old[p1.1 as int]));
            assert(s.new.contains(s.new[p2.0 as int]));
            assert(s.new.contains(s.new[p2.1 as int]));
        } else {
            let v1 = u1 - onp.len();
            let v2 = u2 - onp.len();
            lemma_ordered_pairs_bounds(0, n, v1);
            lemma_ordered_pairs_bounds(0, n, v2);
            lemma_ordered_pairs_no_dup(0, n, v1, v2);
            let p1 = ordered_pairs_from(0, n)[v1];
            let p2 = ordered_pairs_from(0, n)[v2];
            assert(t.candidates[u1] == nnp[v1]);
            assert(t.candidates[u2] == nnp[v2]);
            if p1.0 != p2.0 {
                assert(s.new[p1.0 as int] != s.new[p2.0 as int]);
            } else {
                assert(s.new[p1.1 as int] != s.new[p2.1 as int]);
            }
            if p1.0 != p2.1 {
                assert(s.new[p1.0 as int] != s.new[p2.1 as int]);
            } else {
                assert(s.new[p1.1 as int] != s.new[p2.0 as int]);
            }
        }
    }
}

proof fn lemma_next_generator(s: DlaState)
    requires
        s.core_inv(),
        !s.finished,
        s.probe is None,
        s.new.len() == 0,
        s.cursor == s.candidates.len(),
    ensures
        s.next_generator().inv(),
{
    if s.pending.len() > 0 {
        let t = s.next_generator();
        let g = s.pending.last();
        lemma_drop_last(s.pending);
        assert forall|x: usize| #[trigger] t.new.contains(x) implies false by {}
        assert forall|x: usize| #[trigger] t.pending.contains(x) implies s.pending.contains(x)
            && x != g by {}
        assert forall|x: usize| #[trigger] t.dropped.contains(x) implies !t.pending.contains(x)
            && !t.old.contains(x) && !t.new.contains(x) && t.probe != Some(x) by {
            assert(!s.pending.contains(x));
        }
        assert(apart(t.pending, t.old));
        assert(apart(t.pending, t.new));
        assert(apart(t.old, t.new));
        assert(t.elements_ok());
        lemma_basis_carried(s, t);
        assert(t.core_inv());
    } else {
        lemma_basis_carried(s, s.next_generator());
    }
}

proof fn lemma_settle(s: DlaState)
    requires
        s.core_inv(),
    ensures
        s.settle().inv(),
{
    if s.finished || s.probe is Some || s.cursor < s.candidates.len() {
    } else if s.new.len() > 0 {
        lemma_start_round(s);
        let t = s.start_round();
        if t.candidates.len() == 0 {
            lemma_next_generator(t);
        }
    } else {
        lemma_next_generator(s);
    }
}

/// Settling keeps the elements, the examined commutators and the dropped
/// generators as they are, and when it finishes the search the result is to be
/// normalised.
proof fn lemma_settle_keeps(u: DlaState)
    ensures
        forall|x: usize|
            #![auto]
            (u.settle().old.contains(x) || u.settle().new.contains(x)) <==> (u.old.contains(x)
                || u.new.contains(x)),
        u.settle().examined == u.examined,
        u.settle().dropped == u.dropped,
        !u.finished && u.settle().finished ==> u.settle().normalize,
{
    if u.finished || u.probe is Some || u.cursor < u.candidates.len() {
    } else if u.new.len() > 0 {
        lemma_concat_contains(u.old, u.new);
    }
}

/// The search begins with nothing found and, unless there is no generator, by
/// checking the last generator; with none it is finished at once, with an empty
/// result that is to be normalised.
pub proof fn lemma_initial_laws(basis_len: nat, maximum: nat)
    ensures
        DlaState::initial(basis_len, maximum).finished <==> basis_len == 0,
        DlaState::initial(basis_len, maximum).old.len() == 0,
        DlaState::initial(basis_len, maximum).new.len() == 0,
        DlaState::initial(basis_len, maximum).examined == Set::<(usize, usize)>::empty(),
        DlaState::initial(basis_len, maximum).dropped == Set::<usize>::empty(),
        basis_len == 0 ==> DlaState::initial(basis_len, maximum).normalize,
        basis_len > 0 ==> DlaState::initial(basis_len, maximum).probe == Some(
            (basis_len - 1) as usize,
        ),
{
}

/// What a report does, in terms of the step it answers:
/// - the result is left unnormalised exactly when an independent remainder arrives
///   while the algebra already has its largest possible number of elements, which
///   ends the search;
/// - a dependent remainder is never kept; an independent one that fits is kept,
///   under the generator's own number or under the next unused one;
/// - no element is lost, and the only element gained is the one handed back;
/// - a commutator step marks exactly the commutator asked for as examined, and a
///   generator step none;
/// - a generator is dropped exactly when it is reported dependent;
/// - the next generator checked is the last one still waiting;
/// - when a report opens a new round, the elements found (those of the round just
///   ended and the one handed back) join the old group, and the round schedules
///   first each of them against every earlier element, then each two of them.
pub proof fn lemma_report_laws(s: DlaState, independent: bool)
    requires
        s.inv(),
        !s.finished,
        s.next_id < usize::MAX,
    ensures
        (s.report(independent).finished && !s.report(independent).normalize) == (independent
            && s.old.len() + s.new.len() == s.maximum),
        !independent ==> s.accepted_as(independent) is None,
        independent && s.old.len() + s.new.len() == s.maximum ==> s.accepted_as(independent) is None,
        independent && s.old.len() + s.new.len() != s.maximum ==> s.accepted_as(independent) == (
        match s.probe {
            Some(g) => Some(g),
            None => Some(s.next_id as usize),
        }),
        forall|x: usize|
            #![auto]
            s.old.contains(x) || s.new.contains(x) ==> s.report(independent).old.contains(x)
                || s.report(independent).new.contains(x),
        forall|x: usize|
            #![auto]
            s.report(independent).old.contains(x) || s.report(independent).new.contains(x) ==> s.old.contains(x)
                || s.new.contains(x) || s.accepted_as(independent) == Some(x),
        s.accepted_as(independent) matches Some(x) ==> s.report(independent).old.contains(x)
            || s.report(independent).new.contains(x),
        s.probe is None ==> s.report(independent).examined == s.examined.insert(
            s.candidates[s.cursor as int],
        ),
        s.probe is Some ==> s.report(independent).examined == s.examined,
        s.probe is Some && !independent ==> s.report(independent).dropped == s.dropped.insert(
            s.probe.unwrap(),
        ),
        !(s.probe is Some && !independent) ==> s.report(independent).dropped == s.dropped,
        s.report(independent).probe is Some ==> s.pending.len() > 0 && s.report(independent).probe
            == Some(s.pending.last()) && s.report(independent).pending == s.pending.drop_last(),
        s.report(independent).probe is None ==> s.report(independent).pending == s.pending,
        ({
            let grown = match s.accepted_as(independent) {
                Some(x) => s.new.push(x),
                None => s.new,
            };
            let t = s.report(independent);
            !t.finished && t.probe is None && t.cursor == 0 ==> t.old == s.old + grown && t.new.len()
                == 0 && t.candidates == old_new_pairs(grown, s.old) + new_new_pairs(grown)
        }),
{
    let t = s.report(independent);
    if s.saturates(independent) {
        lemma_concat_contains(s.old, s.new);
        assert forall|x: usize|
            #![auto]
            t.old.contains(x) || t.new.contains(x) implies s.old.contains(x) || s.new.contains(x)
                || s.accepted_as(independent) == Some(x) by {
            assert(!t.new.contains(x));
            assert((s.old + s.new).contains(x));
        }
        assert forall|x: usize|
            #![auto]
            s.old.contains(x) || s.new.contains(x) implies t.old.contains(x) || t.new.contains(x) by {
            assert((s.old + s.new).contains(x));
        }
    } else {
        let a = s.advance(independent);
        lemma_settle_keeps(a);
        match s.probe {
            Some(g) => {
                if independent {
                    assert(a.new[0] == g);
                    assert forall|x: usize| #[trigger] a.new.contains(x) <==> x == g by {
                        if a.new.contains(x) {
                            let i = choose|i: int| 0 <= i < a.new.len() && a.new[i] == x;
                        }
                    }
                    assert(a.new.contains(g));
                    assert(s.new.push(g) =~= a.new);
                }
            },
            None => {
                lemma_push_contains(s.new, s.next_id as usize);
                if independent {
                    assert(a.new.contains(s.next_id as usize));
                }
            },
        }
        assert forall|x: usize|
            #![auto]
            t.old.contains(x) || t.new.contains(x) implies s.old.contains(x) || s.new.contains(x)
                || s.accepted_as(independent) == Some(x) by {
            assert(a.old.contains(x) || a.new.contains(x));
        }
        assert forall|x: usize|
            #![auto]
            s.old.contains(x) || s.new.contains(x) implies t.old.contains(x) || t.new.contains(x) by {
            assert(a.old.contains(x) || a.new.contains(x));
        }
        if s.accepted_as(independent) is Some {
            let x = s.accepted_as(independent).unwrap();
            assert(a.old.contains(x) || a.new.contains(x));
        }
    }
}

/// Settling changes no part of the work left, unless it finishes the search.
proof fn lemma_settle_measure(s: DlaState)
    requires
        s.core_inv(),
    ensures
        s.settle().finished || s.settle().measure() == s.measure(),
{
    if s.finished || s.probe is Some || s.cursor < s.candidates.len() {
    } else if s.new.len() > 0 {
        let t = s.start_round();
        assert(grid(0, t.old.len()).len() == 0);
        assert(ordered_pairs_from(0, 0).len() == 0);
        assert(t.measure() == s.measure());
    }
}

/// The search ends: every report either finishes it or strictly lowers the work
/// it has left, in an order with no infinite descent.
pub proof fn lemma_report_progress(s: DlaState, independent: bool)
    requires
        s.inv(),
        !s.finished,
        s.next_id < usize::MAX,
    ensures
        s.report(independent).finished || lex_below(s.report(independent).measure(), s.measure()),
{
    lemma_report(s, independent);
    if !s.saturates(independent) {
        let a = s.advance(independent);
        lemma_settle_measure(a);
        assert(lex_below(a.measure(), s.measure()));
    }
}

proof fn lemma_report(s: DlaState, independent: bool)
    requires
        s.inv(),
        !s.finished,
        s.next_id < usize::MAX,
    ensures
        s.report(independent).inv(),
        !s.saturates(independent) ==> s.advance(independent).core_inv(),
{
    if s.saturates(independent) {
        let t = s.report(independent);
        lemma_merge(s);
        assert(t.elements_ok());
        assert forall|u: int| t.cursor <= u < t.candidates.len() implies t.old.contains(
            (#[trigger] t.candidates[u]).0,
        ) && t.old.contains(t.candidates[u].1) && t.candidates[u].0 != t.candidates[u].1 by {
            assert(s.old.contains(s.candidates[u].0));
            assert(s.old.contains(s.candidates[u].1));
        }
        if s.probe is None {
            let c = s.current();
            assert(s.old.contains(c.0) && s.old.contains(c.1) && c.0 != c.1);
        }
        assert forall|p: (usize, usize)| #[trigger] t.examined.contains(p) implies t.old.contains(
            p.0,
        ) && t.old.contains(p.1) && p.0 != p.1 by {
            if s.examined.contains(p) {
            }
        }
        assert(t.core_inv());
    } else {
        let s1 = s.advance(independent);
        match s.probe {
            Some(g) => {
                if independent {
                    lemma_push_contains(Seq::empty(), g);
                    assert(seq![g] == Seq::<usize>::empty().push(g));
                    assert(apart(s1.pending, s1.new));
                    assert(apart(s1.old, s1.new));
                    assert(s1.elements_ok());
                    lemma_basis_carried(s, s1);
                } else {
                    assert(s1.elements_ok());
                    lemma_basis_carried(s, s1);
                }
                assert(s1.core_inv());
            },
            None => {
                let c = s.current();
                let id = s.next_id as usize;
                lemma_push_contains(s.new, id);
                assert(!s.new.contains(id));
                assert(s1.elements_ok());
                assert forall|u: int| s1.cursor <= u < s1.candidates.len() implies !covered(
                    s1.examined,
                    (#[trigger] s1.candidates[u]).0,
                    s1.candidates[u].1,
                ) by {
                    assert(!same_pair(s.candidates[s.cursor as int], s.candidates[u]));
                }
                assert forall|x: usize, y: usize|
                    s1.old.contains(x) && s1.old.contains(y) && x != y implies #[trigger] covered(
                    s1.examined,
                    x,
                    y,
                ) || scheduled(s1.candidates, s1.cursor, x, y) by {
                    assert(covered(s.examined, x, y) || scheduled(s.candidates, s.cursor, x, y));
                    if !covered(s.examined, x, y) {
                        let w = choose|w: int|
                            s.cursor <= w < s.candidates.len() && (#[trigger] s.candidates[w] == (
                            x,
                            y,
                        ) || s.candidates[w] == (y, x));
                        if w > s.cursor {
                            assert(s1.candidates[w] == s.candidates[w]);
                        }
                    }
                }
                assert(s.old.contains(c.0) && s.old.contains(c.1) && c.0 != c.1);
                assert forall|p: (usize, usize)| #[trigger] s1.examined.contains(p) implies s1.old.contains(
                    p.0,
                ) && s1.old.contains(p.1) && p.0 != p.1 by {
                    if s.examined.contains(p) {
                    }
                }
                lemma_basis_carried(s, s1);
                assert(s1.core_inv());
            },
        }
        lemma_settle(s1);
    }
}

/// The search for the dynamical Lie algebra spanned by a set of generators, driven
/// by whoever holds the matrices.
///
/// The generators, already orthogonalised, are numbered `0 .. basis_len` in the
/// order they are stored; they are taken from the last one down. The driver asks
/// [`DlaBuilder::next_step`] what to reduce next: a waiting generator, or the
/// commutator of two elements. It reduces that matrix against the current elements
/// (first the old group, then the new one) and tells [`DlaBuilder::report`]
/// whether a nonzero remainder was left. `report` hands back the number under which
/// an accepted remainder is to be kept.
pub struct DlaBuilder {
    pending: Vec<usize>,
    old: Vec<usize>,
    new: Vec<usize>,
    candidates: Vec<(usize, usize)>,
    cursor: usize,
    probe: Option<usize>,
    maximum: usize,
    next_id: usize,
    basis_len: usize,
    finished: bool,
    normalize: bool,
    examined: Ghost<Set<(usize, usize)>>,
    dropped: Ghost<Set<usize>>,
}

impl View for DlaBuilder {
    type V = DlaState;

    closed spec fn view(&self) -> DlaState {
        DlaState {
            pending: self.pending@,
            old: self.old@,
            new: self.new@,
            candidates: self.candidates@,
            cursor: self.cursor as nat,
            probe: self.probe,
            maximum: self.maximum as nat,
            next_id: self.next_id as nat,
            basis_len: self.basis_len as nat,
            finished: self.finished,
            normalize: self.normalize,
            examined: self.examined@,
            dropped: self.dropped@,
        }
    }
}

impl DlaBuilder {
    /// Starts the search over `basis_len` generators of `dim x dim` matrices; the
    /// algebra they span has at most `dim * dim` dimensions.
    pub fn new(basis_len: usize, dim: usize) -> (b: DlaBuilder)
        requires
            dim * dim <= usize::MAX,
        ensures
            b@ == DlaState::initial(basis_len as nat, (dim * dim) as nat),
            b@.inv(),
            b@.finished <==> basis_len == 0,
            b@.finished ==> b@.normalize,
            b@.old.len() == 0 && b@.new.len() == 0,
            b@.examined == Set::<(usize, usize)>::empty(),
            b@.dropped == Set::<usize>::empty(),
            basis_len > 0 ==> b@.probe == Some((basis_len - 1) as usize),
    {
        proof {
            lemma_initial_laws(basis_len as nat, (dim * dim) as nat);
        }
        let maximum: usize = dim * dim;
        let mut pending: Vec<usize> = Vec::new();
        let mut i: usize = 0;
        while i < basis_len
            invariant
                i <= basis_len,
                pending@ =~= Seq::new(i as nat, |k: int| k as usize),
            decreases basis_len - i,
        {
            pending.push(i);
            i = i + 1;
        }
        let mut b = DlaBuilder {
            pending,
            old: Vec::new(),
            new: Vec::new(),
            candidates: Vec::new(),
            cursor: 0,
            probe: None,
            maximum,
            next_id: basis_len,
            basis_len,
            finished: false,
            normalize: false,
            examined: Ghost(Set::empty()),
            dropped: Ghost(Set::empty()),
        };
        proof {
            lemma_start(basis_len as nat, maximum as nat);
        }
        assert(b@ =~= DlaState::start(basis_len as nat, maximum as nat));
        b.settle();
        b
    }

    /// Takes the next waiting generator to check, or finishes the search.
    fn next_generator(&mut self)
        ensures
            final(self)@ == old(self)@.next_generator(),
    {
        let ghost s = self@;
        match self.pending.pop() {
            Some(g) => {
                self.probe = Some(g);
            },
            None => {
                self.finished = true;
                self.normalize = true;
            },
        }
        assert(self@ =~= s.next_generator());
    }

    /// Moves on when the round has no commutator left and no generator is checked.
    fn settle(&mut self)
        requires
            old(self)@.core_inv(),
        ensures
            final(self)@ == old(self)@.settle(),
            final(self)@.inv(),
    {
        proof {
            lemma_settle(self@);
        }
        let ghost s = self@;
        if self.finished || self.probe.is_some() || self.cursor < self.candidates.len() {
            return ;
        }
        if self.new.len() > 0 {
            let mut cands = new_old_commutators(&self.new, &self.old);
            let mut inner = new_new_commutator(&self.new);
            cands.append(&mut inner);
            self.old.append(&mut self.new);
            self.candidates = cands;
            self.cursor = 0;
            assert(self@ =~= s.start_round());
            if self.candidates.len() > 0 {
                return ;
            }
        }
        self.next_generator();
    }

    /// What to reduce next; `None` once the search is finished. A generator is one
    /// still waiting, neither an element nor dropped; a commutator is of two
    /// distinct elements of the old group, and no commutator of the two, in either
    /// order, has been examined before.
    pub fn next_step(&self) -> (r: Option<DlaStep>)
        requires
            self@.inv(),
        ensures
            self@.finished ==> r is None,
            !self@.finished && self@.probe is Some ==> r == Some(
                DlaStep::Generator(self@.probe.unwrap()),
            ),
            !self@.finished && self@.probe is None ==> r == Some(
                DlaStep::Commutator(self@.current().0, self@.current().1),
            ),
            r matches Some(DlaStep::Generator(g)) ==> g < self@.basis_len && !self@.old.contains(g)
                && !self@.new.contains(g) && !self@.dropped.contains(g),
            r matches Some(DlaStep::Commutator(l, k)) ==> self@.old.contains(l)
                && self@.old.contains(k) && l != k && !covered(self@.examined, l, k),
    {
        if self.finished {
            None
        } else {
            match self.probe {
                Some(g) => Some(DlaStep::Generator(g)),
                None => {
                    let (l, k) = self.candidates[self.cursor];
                    Some(DlaStep::Commutator(l, k))
                },
            }
        }
    }

    /// Records the outcome for the current generator or commutator: `independent`
    /// when a nonzero remainder was left after reducing it against the current
    /// elements. Hands back the number under which the accepted remainder is to be
    /// kept: the generator's own, or a fresh one for a commutator. Each report
    /// finishes the search or strictly lowers the work it has left, so a driver that
    /// reports every step reaches the end.
    pub fn report(&mut self, independent: bool) -> (accepted: Option<usize>)
        requires
            old(self)@.inv(),
            !old(self)@.finished,
            old(self)@.next_id < usize::MAX,
        ensures
            final(self)@ == old(self)@.report(independent),
            final(self)@.inv(),
            accepted == old(self)@.accepted_as(independent),
            final(self)@.finished || lex_below(final(self)@.measure(), old(self)@.measure()),
            (final(self)@.finished && !final(self)@.normalize) == (independent && old(self)@.old.len()
                + old(self)@.new.len() == old(self)@.maximum),
            !independent ==> accepted is None,
            independent && old(self)@.old.len() + old(self)@.new.len() != old(self)@.maximum
                ==> accepted == (match old(self)@.probe {
                Some(g) => Some(g),
                None => Some(old(self)@.next_id as usize),
            }),
            accepted matches Some(x) ==> final(self)@.old.contains(x) || final(self)@.new.contains(x),
            forall|x: usize|
                #![auto]
                old(self)@.old.contains(x) || old(self)@.new.contains(x) ==> final(self)@.old.contains(x)
                    || final(self)@.new.contains(x),
            forall|x: usize|
                #![auto]
                final(self)@.old.contains(x) || final(self)@.new.contains(x) ==> old(self)@.old.contains(x)
                    || old(self)@.new.contains(x) || accepted == Some(x),
            old(self)@.probe is None ==> final(self)@.examined == old(self)@.examined.insert(
                old(self)@.candidates[old(self)@.cursor as int],
            ),
            old(self)@.probe is Some ==> final(self)@.examined == old(self)@.examined,
    {
        proof {
            lemma_report(self@, independent);
            lemma_report_progress(self@, independent);
            lemma_report_laws(self@, independent);
        }
        let ghost s = self@;
        let count: usize = self.old.len() + self.new.len();
        if independent && count == self.maximum {
            if self.probe.is_none() {
                let pair = self.candidates[self.cursor];
                self.examined = Ghost(self.examined@.insert(pair));
            }
            self.old.append(&mut self.new);
            self.finished = true;
            self.normalize = false;
            self.probe = None;
            assert(self@ =~= s.report(independent));
            return None;
        }
        let mut accepted: Option<usize> = None;
        match self.probe {
            Some(g) => {
                self.probe = None;
                if independent {
                    self.new.push(g);
                    accepted = Some(g);
                } else {
                    self.dropped = Ghost(self.dropped@.insert(g));
                }
            },
            None => {
                let pair = self.candidates[self.cursor];
                self.examined = Ghost(self.examined@.insert(pair));
                if independent {
                    accepted = Some(self.next_id);
                    self.new.push(self.next_id);
                    self.next_id = self.next_id + 1;
                }
                let len: usize = self.candidates.len();
                assert(self.cursor < len);
                self.cursor = self.cursor + 1;
            },
        }
        assert(self@ =~= s.advance(independent));
        self.settle();
        accepted
    }

    /// The number that the next accepted commutator will get.
    pub fn fresh_id(&self) -> (r: usize)
        ensures
            r == self@.next_id,
    {
        self.next_id
    }

    /// Whether the search has ended.
    pub fn is_finished(&self) -> (r: bool)
        ensures
            r == self@.finished,
    {
        self.finished
    }

    /// The old group: the elements every commutator of the round is taken among.
    pub fn old_group(&self) -> (r: &Vec<usize>)
        ensures
            r@ == self@.old,
    {
        &self.old
    }

    /// The elements found so far in the current round.
    pub fn new_group(&self) -> (r: &Vec<usize>)
        ensures
            r@ == self@.new,
    {
        &self.new
    }

    /// How far the round has got: the number of commutators examined in it and the
    /// number it holds.
    pub fn round_progress(&self) -> (r: (usize, usize))
        ensures
            r == (self@.cursor as usize, self@.candidates.len() as usize),
    {
        (self.cursor, self.candidates.len())
    }

    /// The outcome of a finished search: the elements of the algebra, and whether
    /// they are to be normalised (the search ran to the end) or not (it stopped at
    /// the largest possible dimension).
    ///
    /// The result never holds more than the largest possible number of elements,
    /// and one that stopped early holds exactly that many. A search that ran to the
    /// end holds every generator not found dependent, and every two of its elements
    /// had their commutator examined. No element occurs twice, no dropped generator
    /// is in the result, and every commutator examined was one of two distinct
    /// elements of the result.
    pub fn result(&self) -> (r: (&Vec<usize>, bool))
        requires
            self@.inv(),
            self@.finished,
        ensures
            r.0@ == self@.old,
            r.1 == self@.normalize,
            r.0@.no_duplicates(),
            r.0@.len() <= self@.maximum,
            !r.1 ==> r.0@.len() == self@.maximum,
            r.1 ==> closed_under_examination(r.0@, self@.examined),
            r.1 ==> forall|b: nat|
                b < self@.basis_len ==> #[trigger] r.0@.contains(b as usize) || self@.dropped.contains(
                    b as usize,
                ),
            forall|x: usize| #[trigger] self@.dropped.contains(x) ==> !r.0@.contains(x),
            forall|p: (usize, usize)|
                #[trigger] self@.examined.contains(p) ==> r.0@.contains(p.0) && r.0@.contains(p.1)
                    && p.0 != p.1,
    {
        proof {
            assert forall|x: usize, y: usize|
                self@.normalize && self@.old.contains(x) && self@.old.contains(y) && x
                    != y implies #[trigger] covered(self@.examined, x, y) by {
                assert(covered(self@.examined, x, y) || scheduled(
                    self@.candidates,
                    self@.cursor,
                    x,
                    y,
                ));
            }
            assert forall|b: nat| self@.normalize && b < self@.basis_len implies #[trigger] self@.old.contains(
                b as usize,
            ) || self@.dropped.contains(b as usize) by {
                assert(self@.holds(b as usize));
            }
        }
        (&self.old, self.normalize)
    }
}

} // verus!
