//! The sequence of pieces: a generator that can be asked for the next piece
//! and for a look ahead, and the seven-bag generator, which deals the seven
//! kinds in shuffled bags.

use crate::piece::Shape;
use rand::seq::SliceRandom;
use rand::SeedableRng;
use rand_chacha::ChaCha20Rng;
use vstd::prelude::*;

verus! {

/// The seven kinds in their listed order.
pub open spec fn all_shapes() -> Seq<Shape> {
    seq![Shape::I, Shape::J, Shape::L, Shape::O, Shape::S, Shape::T, Shape::Z]
}

/// A bag is a permutation of the seven kinds.
pub open spec fn is_bag(s: Seq<Shape>) -> bool {
    s.to_multiset() == all_shapes().to_multiset()
}

/// A bag holds seven pieces, each kind exactly once.
pub proof fn lemma_bag_holds_each_once(s: Seq<Shape>)
    requires
        is_bag(s),
    ensures
        s.len() == 7,
        s.no_duplicates(),
        forall|shape: Shape| #[trigger] s.to_multiset().count(shape) == 1,
        forall|shape: Shape| #[trigger] s.contains(shape),
{
    broadcast use vstd::multiset::group_multiset_axioms;

    let e = Seq::<Shape>::empty();
    let s1 = e.push(Shape::I);
    let s2 = s1.push(Shape::J);
    let s3 = s2.push(Shape::L);
    let s4 = s3.push(Shape::O);
    let s5 = s4.push(Shape::S);
    let s6 = s5.push(Shape::T);
    let s7 = s6.push(Shape::Z);
    assert(s7 =~= all_shapes());
    vstd::seq_lib::to_multiset_build(e, Shape::I);
    vstd::seq_lib::to_multiset_build(s1, Shape::J);
    vstd::seq_lib::to_multiset_build(s2, Shape::L);
    vstd::seq_lib::to_multiset_build(s3, Shape::O);
    vstd::seq_lib::to_multiset_build(s4, Shape::S);
    vstd::seq_lib::to_multiset_build(s5, Shape::T);
    vstd::seq_lib::to_multiset_build(s6, Shape::Z);
    vstd::seq_lib::to_multiset_len(e);
    assert(e.to_multiset() =~= vstd::multiset::Multiset::<Shape>::empty());
    assert forall|shape: Shape| #[trigger] s.to_multiset().count(shape) == 1 by {
        match shape {
            Shape::I => {},
            Shape::J => {},
            Shape::L => {},
            Shape::O => {},
            Shape::S => {},
            Shape::T => {},
            Shape::Z => {},
        }
    }
    vstd::seq_lib::to_multiset_len(s);
    vstd::seq_lib::to_multiset_len(all_shapes());
    s.lemma_multiset_has_no_duplicates_conv();
    assert forall|shape: Shape| #[trigger] s.contains(shape) by {
        vstd::seq_lib::to_multiset_contains(s, shape);
    }
}

/// Seven pieces that hold every kind are a bag.
pub proof fn lemma_seven_kinds_make_a_bag(s: Seq<Shape>)
    requires
        s.len() == 7,
        forall|shape: Shape| #[trigger] s.contains(shape),
    ensures
        is_bag(s),
{
    broadcast use vstd::multiset::group_multiset_axioms;

    let held = s.to_multiset();
    let each = all_shapes().to_multiset();
    lemma_bag_holds_each_once(all_shapes());
    vstd::seq_lib::to_multiset_len(s);
    vstd::seq_lib::to_multiset_len(all_shapes());
    assert forall|shape: Shape| each.count(shape) <= held.count(shape) by {
        assert(s.contains(shape));
        vstd::seq_lib::to_multiset_contains(s, shape);
    }
    assert(each.subset_of(held));
    let more = held.sub(each);
    assert(more.len() == 0);
    vstd::multiset::lemma_multiset_empty_len(more);
    assert forall|shape: Shape| held.count(shape) == each.count(shape) by {
        assert(more.count(shape) == 0);
    }
    assert(held =~= each);
}

/// What one draw does to the pieces that a generator has settled on: the
/// piece drawn is the first of them, if there is one, and the others stay
/// the next to come, in their order, before any piece settled on since.
pub open spec fn follows(before: Seq<Shape>, piece: Shape, after: Seq<Shape>) -> bool {
    before.len() > 0 ==> piece == before[0] && before.skip(1).is_prefix_of(after)
}

/// The first `amount` of the pieces to come, or all of them where they are
/// fewer.
pub open spec fn shown(upcoming: Seq<Shape>, amount: int) -> Seq<Shape> {
    if amount <= upcoming.len() {
        upcoming.take(amount)
    } else {
        upcoming
    }
}

/// A source of pieces that can be asked for the next piece and for a look at
/// the pieces to come.
pub trait PieceGenerator {
    /// The generator is in a state that its operations keep up.
    spec fn wf(&self) -> bool;

    /// The pieces that the generator has settled on, next one first.
    spec fn upcoming(&self) -> Seq<Shape>;

    /// Shows the next `amount` pieces without drawing them, or all that
    /// are settled on where these are fewer.
    fn peek_next(&self, amount: usize) -> (pieces: Vec<Shape>)
        requires
            self.wf(),
        ensures
            pieces@ == shown(self.upcoming(), amount as int),
    ;

    /// Draws the next piece.
    fn get_next(&mut self) -> (piece: Shape)
        requires
            old(self).wf(),
        ensures
            final(self).wf(),
            follows(old(self).upcoming(), piece, final(self).upcoming()),
    ;
}

/// The order that `rand::seq::SliceRandom::shuffle` gives to the pieces when
/// it draws from the `rand_chacha::ChaCha20Rng` that
/// `rand::SeedableRng::seed_from_u64` makes from the seed.
pub uninterp spec fn shuffled(pieces: Seq<Shape>, seed: u64) -> Seq<Shape>;

/// The seed of the bag with the given number among the bags of a generator:
/// each bag has a seed of its own, counted up from the seed of the generator.
pub open spec fn bag_seed(seed: u64, number: u64) -> u64 {
    seed.wrapping_add(number)
}

/// The bag with the given number among the bags that a seed gives: the seven
/// kinds in their listed order, shuffled from the seed of that bag.
pub open spec fn dealt_bag(seed: u64, number: u64) -> Seq<Shape> {
    shuffled(all_shapes(), bag_seed(seed, number))
}

/// The state of a seven-bag generator: what is left of the bag that is
/// being dealt, the bag that comes after it, the seed that the bags are
/// shuffled from, and the number of bags shuffled so far.
pub struct Bags {
    pub current: Seq<Shape>,
    pub next: Seq<Shape>,
    pub seed: u64,
    pub dealt: u64,
}

impl Bags {
    /// The pieces to come: the rest of the current bag, then the next bag.
    pub open spec fn upcoming(self) -> Seq<Shape> {
        self.current + self.next
    }

    /// Both bags are full, as in a generator that has dealt nothing yet.
    pub open spec fn fresh(self) -> bool {
        is_bag(self.current) && is_bag(self.next)
    }

    /// The state in which a generator starts: its bags are the first two
    /// that its seed gives.
    pub open spec fn started(self) -> bool {
        &&& self.current == dealt_bag(self.seed, 0)
        &&& self.next == dealt_bag(self.seed, 1)
        &&& self.dealt == 2
    }

    /// The current bag is what is left of a bag after some draws, and the
    /// next bag is full.
    pub open spec fn wf(self) -> bool {
        &&& exists|drawn: Seq<Shape>| is_bag(#[trigger] (drawn + self.current))
        &&& is_bag(self.next)
    }

    /// One draw: the piece comes off the front of the current bag. Where
    /// that bag is used up, the next bag takes its place first, and the bag
    /// that the seed gives next comes in as the next one.
    pub open spec fn draws(self, piece: Shape, after: Bags) -> bool {
        if self.current.len() > 0 {
            &&& piece == self.current[0]
            &&& after.current == self.current.skip(1)
            &&& after.next == self.next
            &&& after.seed == self.seed
            &&& after.dealt == self.dealt
        } else {
            &&& piece == self.next[0]
            &&& after.current == self.next.skip(1)
            &&& after.next == dealt_bag(self.seed, self.dealt)
            &&& is_bag(after.next)
            &&& after.seed == self.seed
            &&& after.dealt == self.dealt.wrapping_add(1)
        }
    }
}

/// A run of draws: each state leads to the next by the draw of one piece.
pub open spec fn is_run(states: Seq<Bags>, pieces: Seq<Shape>) -> bool {
    &&& states.len() == pieces.len() + 1
    &&& forall|k: int|
        0 <= k < pieces.len() ==> (#[trigger] states[k]).draws(pieces[k], states[k + 1])
}

/// A draw of the seven-bag generator is a draw as every generator makes it.
pub proof fn lemma_draw_follows(before: Bags, piece: Shape, after: Bags)
    requires
        before.draws(piece, after),
    ensures
        follows(before.upcoming(), piece, after.upcoming()),
{
    if before.upcoming().len() > 0 {
        if before.current.len() > 0 {
            assert(before.upcoming().skip(1) =~= after.upcoming());
        } else {
            assert(before.upcoming() =~= before.next);
            assert(before.upcoming().skip(1) =~= after.current);
        }
    }
}

/// Where all but the first `k - 1` of some pieces are the next to come and
/// one piece is drawn, it is the `k`-th of them, and all but the first `k`
/// are the next to come.
proof fn lemma_prefix_step(
    start: Seq<Shape>,
    k: int,
    before: Seq<Shape>,
    piece: Shape,
    after: Seq<Shape>,
)
    requires
        0 < k <= start.len(),
        start.skip(k - 1).is_prefix_of(before),
        follows(before, piece, after),
    ensures
        piece == start[k - 1],
        start.skip(k).is_prefix_of(after),
{
    let tail = start.skip(k - 1);
    assert(tail.len() > 0);
    assert(tail[0] == before.subrange(0, tail.len() as int)[0]);
    let rest = start.skip(k);
    let shown = before.skip(1);
    assert forall|i: int| 0 <= i < rest.len() implies rest[i] == after[i] by {
        assert(rest[i] == tail[i + 1]);
        assert(tail[i + 1] == before.subrange(0, tail.len() as int)[i + 1]);
        assert(shown[i] == before[i + 1]);
        assert(shown[i] == after.subrange(0, shown.len() as int)[i]);
    }
    assert(rest =~= after.subrange(0, rest.len() as int));
}

/// After `k` draws of a run, the pieces drawn are the first `k` of those
/// that were to come at its start, and the others of them are still the
/// next to come.
proof fn lemma_run_prefix(states: Seq<Bags>, pieces: Seq<Shape>, k: int)
    requires
        is_run(states, pieces),
        0 <= k <= pieces.len(),
        k <= states[0].upcoming().len(),
    ensures
        pieces.take(k) == states[0].upcoming().take(k),
        states[0].upcoming().skip(k).is_prefix_of(states[k].upcoming()),
    decreases k,
{
    let start = states[0].upcoming();
    if k == 0 {
        assert(pieces.take(0) =~= start.take(0));
        assert(start.skip(0) =~= start);
    } else {
        lemma_run_prefix(states, pieces, k - 1);
        assert(states[k - 1].draws(pieces[k - 1], states[k - 1 + 1]));
        lemma_draw_follows(states[k - 1], pieces[k - 1], states[k]);
        lemma_prefix_step(
            start,
            k,
            states[k - 1].upcoming(),
            pieces[k - 1],
            states[k].upcoming(),
        );
        assert(pieces.take(k) =~= pieces.take(k - 1).push(pieces[k - 1]));
        assert(start.take(k) =~= start.take(k - 1).push(start[k - 1]));
    }
}

/// A look ahead holds: the pieces drawn in a run are those that were to
/// come at its start, in their order, as far as these reach.
pub proof fn lemma_run_deals_upcoming(states: Seq<Bags>, pieces: Seq<Shape>)
    requires
        is_run(states, pieces),
        pieces.len() <= states[0].upcoming().len(),
    ensures
        pieces == states[0].upcoming().take(pieces.len() as int),
{
    lemma_run_prefix(states, pieces, pieces.len() as int);
    assert(pieces.take(pieces.len() as int) =~= pieces);
}

/// The first seven pieces drawn from a generator that has dealt nothing yet
/// hold each kind exactly once, the seven after them do so again, and the
/// first fourteen hold each kind exactly twice.
pub proof fn lemma_fresh_run_deals_bags(states: Seq<Bags>, pieces: Seq<Shape>)
    requires
        is_run(states, pieces),
        states[0].fresh(),
    ensures
        pieces.len() >= 7 ==> is_bag(pieces.take(7)),
        pieces.len() >= 7 ==> forall|shape: Shape| #[trigger]
            pieces.take(7).to_multiset().count(shape) == 1,
        pieces.len() >= 14 ==> is_bag(pieces.subrange(7, 14)),
        pieces.len() >= 14 ==> forall|shape: Shape| #[trigger]
            pieces.take(14).to_multiset().count(shape) == 2,
{
    let first = states[0].current;
    let second = states[0].next;
    let start = states[0].upcoming();
    lemma_bag_holds_each_once(first);
    lemma_bag_holds_each_once(second);
    if pieces.len() >= 7 {
        lemma_run_prefix(states, pieces, 7);
        assert(start.take(7) =~= first);
    }
    if pieces.len() >= 14 {
        lemma_run_prefix(states, pieces, 14);
        assert(start.take(14) =~= first + second);
        assert(pieces.subrange(7, 14) =~= pieces.take(14).skip(7));
        assert((first + second).skip(7) =~= second);
        vstd::seq_lib::lemma_multiset_commutative(first, second);
    }
}

/// A draw keeps the state well formed: what is left of the current bag is
/// still the rest of a bag, and the next bag is full.
pub proof fn lemma_draw_keeps_wf(before: Bags, piece: Shape, after: Bags)
    requires
        before.wf(),
        before.draws(piece, after),
    ensures
        after.wf(),
{
    if before.current.len() > 0 {
        let drawn = choose|drawn: Seq<Shape>| is_bag(#[trigger] (drawn + before.current));
        assert(drawn.push(before.current[0]) + after.current =~= drawn + before.current);
    } else {
        lemma_bag_holds_each_once(before.next);
        assert(seq![before.next[0]] + after.current =~= before.next);
    }
}

/// Every state of a run that starts well formed is well formed: bag after
/// bag, each kind is dealt once before any is dealt again.
pub proof fn lemma_run_keeps_wf(states: Seq<Bags>, pieces: Seq<Shape>, k: int)
    requires
        is_run(states, pieces),
        states[0].wf(),
        0 <= k <= pieces.len(),
    ensures
        states[k].wf(),
    decreases k,
{
    if k > 0 {
        lemma_run_keeps_wf(states, pieces, k - 1);
        assert(states[k - 1].draws(pieces[k - 1], states[k - 1 + 1]));
        lemma_draw_keeps_wf(states[k - 1], pieces[k - 1], states[k]);
    }
}

/// Generators that start from the same seed start in the same state.
pub proof fn lemma_same_seed_same_start(a: Bags, b: Bags)
    requires
        a.started(),
        b.started(),
        a.seed == b.seed,
    ensures
        a == b,
{
}

/// A draw is determined by the state it is made in: the piece and the state
/// after it are the same whenever it is made.
pub proof fn lemma_draw_is_determined(
    before: Bags,
    piece: Shape,
    after: Bags,
    other_piece: Shape,
    other_after: Bags,
)
    requires
        before.draws(piece, after),
        before.draws(other_piece, other_after),
    ensures
        piece == other_piece,
        after == other_after,
{
}

/// A run can be repeated: two runs of the same length from the same state
/// go through the same states and deal the same pieces. So do two runs of
/// generators made from the same seed.
pub proof fn lemma_runs_agree(
    states: Seq<Bags>,
    pieces: Seq<Shape>,
    other_states: Seq<Bags>,
    other_pieces: Seq<Shape>,
)
    requires
        is_run(states, pieces),
        is_run(other_states, other_pieces),
        pieces.len() == other_pieces.len(),
        states[0] == other_states[0] || (states[0].started() && other_states[0].started()
            && states[0].seed == other_states[0].seed),
    ensures
        pieces == other_pieces,
        states == other_states,
{
    if states[0] != other_states[0] {
        lemma_same_seed_same_start(states[0], other_states[0]);
    }
    lemma_runs_agree_upto(states, pieces, other_states, other_pieces, pieces.len() as int);
    assert(pieces =~= other_pieces);
    assert(states =~= other_states);
}

/// Two runs from the same state agree in their first `k` draws.
proof fn lemma_runs_agree_upto(
    states: Seq<Bags>,
    pieces: Seq<Shape>,
    other_states: Seq<Bags>,
    other_pieces: Seq<Shape>,
    k: int,
)
    requires
        is_run(states, pieces),
        is_run(other_states, other_pieces),
        pieces.len() == other_pieces.len(),
        states[0] == other_states[0],
        0 <= k <= pieces.len(),
    ensures
        forall|i: int| 0 <= i < k ==> pieces[i] == other_pieces[i],
        forall|i: int| 0 <= i <= k ==> states[i] == other_states[i],
    decreases k,
{
    if k > 0 {
        lemma_runs_agree_upto(states, pieces, other_states, other_pieces, k - 1);
        assert(states[k - 1].draws(pieces[k - 1], states[k - 1 + 1]));
        assert(other_states[k - 1].draws(other_pieces[k - 1], other_states[k - 1 + 1]));
        lemma_draw_is_determined(
            states[k - 1],
            pieces[k - 1],
            states[k],
            other_pieces[k - 1],
            other_states[k],
        );
    }
}

/// Calls `rand::random` for a `u64`: a number drawn from the random number
/// generator of the thread. Nothing is claimed of it. The call panics where
/// the operating system can give that generator no entropy; no argument
/// decides that.
#[verifier::external_body]
fn random_seed() -> (seed: u64) {
    rand::random::<u64>()
}

/// Calls `rand::seq::SliceRandom::shuffle` on the pieces, with the
/// `rand_chacha::ChaCha20Rng` that `rand::SeedableRng::seed_from_u64` makes
/// from the seed. The shuffle only swaps entries of the slice, so the pieces
/// afterwards are a permutation of the pieces before. Their order is claimed
/// to be a function of the pieces and the seed alone: the generator is a
/// cipher keyed by the seed, and for a slice of this length the shuffle draws
/// its indices as 32-bit numbers on every machine.
#[verifier::external_body]
fn shuffle(bag: &mut Vec<Shape>, seed: u64)
    requires
        old(bag)@.len() <= u32::MAX,
    ensures
        final(bag)@ == shuffled(old(bag)@, seed),
        final(bag)@.to_multiset() == old(bag)@.to_multiset(),
{
    bag.shuffle(&mut ChaCha20Rng::seed_from_u64(seed));
}

/// Deals the seven kinds in shuffled bags: every kind comes once before any
/// comes again.
pub struct SevenBagGenerator {
    current_bag: Vec<Shape>,
    next_bag: Vec<Shape>,
    seed: u64,
    dealt: u64,
}

impl View for SevenBagGenerator {
    type V = Bags;

    closed spec fn view(&self) -> Bags {
        Bags {
            current: self.current_bag@,
            next: self.next_bag@,
            seed: self.seed,
            dealt: self.dealt,
        }
    }
}

impl SevenBagGenerator {
    /// Fills a bag with the seven kinds in their listed order and shuffles
    /// it from the seed of the bag with the given number.
    fn bag_from(seed: u64, number: u64) -> (bag: Vec<Shape>)
        ensures
            bag@ == dealt_bag(seed, number),
            is_bag(bag@),
    {
        let mut bag: Vec<Shape> = Vec::with_capacity(7);
        bag.push(Shape::I);
        bag.push(Shape::J);
        bag.push(Shape::L);
        bag.push(Shape::O);
        bag.push(Shape::S);
        bag.push(Shape::T);
        bag.push(Shape::Z);
        assert(bag@ =~= all_shapes());
        shuffle(&mut bag, seed.wrapping_add(number));
        bag
    }

    /// Makes a shuffled bag of the seven kinds: the first bag that a seed
    /// drawn at random gives.
    pub fn generate_bag() -> (bag: Vec<Shape>)
        ensures
            is_bag(bag@),
            exists|seed: u64| bag@ == #[trigger] dealt_bag(seed, 0),
    {
        Self::bag_from(random_seed(), 0)
    }

    /// Makes a generator with two full bags, shuffled from a seed that is
    /// drawn at random.
    pub fn new() -> (generator: Self)
        ensures
            generator@.started(),
            generator@.fresh(),
            generator.wf(),
    {
        Self::seeded(random_seed())
    }

    /// Makes a generator whose bags are shuffled from the given seed: its
    /// two bags are the first two that the seed gives, and every later bag
    /// is the next that the seed gives, so that a run can be repeated.
    pub fn seeded(seed: u64) -> (generator: Self)
        ensures
            generator@.seed == seed,
            generator@.started(),
            generator@.fresh(),
            generator.wf(),
    {
        let current = Self::bag_from(seed, 0);
        let next = Self::bag_from(seed, 1);
        Self::assemble(current, next, seed)
    }

    /// Tells whether the pieces hold a kind.
    fn holds(pieces: &Vec<Shape>, shape: Shape) -> (held: bool)
        ensures
            held == pieces@.contains(shape),
    {
        let mut i: usize = 0;
        while i < pieces.len()
            invariant
                i <= pieces@.len(),
                forall|k: int| 0 <= k < i ==> pieces@[k] != shape,
            decreases pieces@.len() - i,
        {
            if pieces[i] == shape {
                return true;
            }
            i += 1;
        }
        false
    }

    /// Tells whether the pieces are a bag: seven pieces with every kind
    /// among them.
    fn is_full_bag(pieces: &Vec<Shape>) -> (full: bool)
        ensures
            full == is_bag(pieces@),
    {
        proof {
            if is_bag(pieces@) {
                lemma_bag_holds_each_once(pieces@);
            }
        }
        let full = pieces.len() == 7 && Self::holds(pieces, Shape::I) && Self::holds(
            pieces,
            Shape::J,
        ) && Self::holds(pieces, Shape::L) && Self::holds(pieces, Shape::O) && Self::holds(
            pieces,
            Shape::S,
        ) && Self::holds(pieces, Shape::T) && Self::holds(pieces, Shape::Z);
        proof {
            if full {
                assert forall|shape: Shape| #[trigger] pieces@.contains(shape) by {
                    match shape {
                        Shape::I => {},
                        Shape::J => {},
                        Shape::L => {},
                        Shape::O => {},
                        Shape::S => {},
                        Shape::T => {},
                        Shape::Z => {},
                    }
                }
                lemma_seven_kinds_make_a_bag(pieces@);
            }
        }
        full
    }

    /// Puts two bags and a seed together to a generator that has dealt
    /// nothing yet.
    fn assemble(current: Vec<Shape>, next: Vec<Shape>, seed: u64) -> (made: Self)
        requires
            is_bag(current@),
            is_bag(next@),
        ensures
            made@ == (Bags { current: current@, next: next@, seed: seed, dealt: 2 }),
            made.wf(),
    {
        let made = Self { current_bag: current, next_bag: next, seed, dealt: 2 };
        proof {
            assert(Seq::<Shape>::empty() + made@.current =~= made@.current);
        }
        made
    }

    /// Makes a generator that deals the two given bags first, as if they
    /// were the first two that the seed gave, and after them the bags that
    /// the seed gives next. There is none where one of the two is no bag.
    pub fn with_bags(current: Vec<Shape>, next: Vec<Shape>, seed: u64) -> (generator: Option<
        Self,
    >)
        ensures
            match generator {
                Some(made) => {
                    &&& is_bag(current@)
                    &&& is_bag(next@)
                    &&& made@ == (Bags { current: current@, next: next@, seed: seed, dealt: 2 })
                    &&& made.wf()
                },
                None => !(is_bag(current@) && is_bag(next@)),
            },
    {
        if Self::is_full_bag(&current) && Self::is_full_bag(&next) {
            Some(Self::assemble(current, next, seed))
        } else {
            None
        }
    }

    /// The seed that the bags of this generator are shuffled from.
    pub fn seed(&self) -> (seed: u64)
        ensures
            seed == self@.seed,
    {
        self.seed
    }

    /// At least one full bag is always settled on.
    pub proof fn lemma_lookahead(&self)
        requires
            self.wf(),
        ensures
            7 <= self.upcoming().len() <= 14,
    {
        lemma_bag_holds_each_once(self@.next);
        let drawn = choose|drawn: Seq<Shape>| is_bag(#[trigger] (drawn + self@.current));
        lemma_bag_holds_each_once(drawn + self@.current);
    }
}

impl PieceGenerator for SevenBagGenerator {
    open spec fn wf(&self) -> bool {
        self@.wf()
    }

    open spec fn upcoming(&self) -> Seq<Shape> {
        self@.upcoming()
    }

    /// Shows the next `amount` pieces, across the end of the current bag
    /// where it has fewer left. At least seven pieces are always settled
    /// on, and never more than fourteen.
    fn peek_next(&self, amount: usize) -> (pieces: Vec<Shape>)
        ensures
            amount <= 7 ==> pieces@.len() == amount,
    {
        proof {
            self.lemma_lookahead();
        }
        let left: usize = self.current_bag.len();
        let settled: usize = left + self.next_bag.len();
        let count: usize = if amount <= settled {
            amount
        } else {
            settled
        };
        let mut pieces: Vec<Shape> = Vec::with_capacity(count);
        let mut i: usize = 0;
        while i < count
            invariant
                left == self.current_bag@.len(),
                count <= self.upcoming().len(),
                i <= count,
                pieces@ == self.upcoming().take(i as int),
            decreases count - i,
        {
            let piece = if i < left {
                self.current_bag[i]
            } else {
                self.next_bag[i - left]
            };
            pieces.push(piece);
            assert(pieces@ =~= self.upcoming().take(i + 1));
            i += 1;
        }
        assert(self.upcoming().take(self.upcoming().len() as int) =~= self.upcoming());
        pieces
    }

    /// Draws the next piece off the current bag. Where that bag is used up,
    /// the next bag takes its place first and the bag that the seed gives
    /// next comes in as the next one.
    fn get_next(&mut self) -> (piece: Shape)
        ensures
            old(self)@.draws(piece, final(self)@),
    {
        if self.current_bag.is_empty() {
            let mut fresh = Self::bag_from(self.seed, self.dealt);
            self.dealt = self.dealt.wrapping_add(1);
            std::mem::swap(&mut self.next_bag, &mut fresh);
            self.current_bag = fresh;
            proof {
                lemma_bag_holds_each_once(self.current_bag@);
                assert(Seq::<Shape>::empty() + self.current_bag@ =~= self.current_bag@);
            }
        }
        let ghost before = self@;
        proof {
            let drawn = choose|drawn: Seq<Shape>| is_bag(#[trigger] (drawn + before.current));
            lemma_bag_holds_each_once(drawn + before.current);
            if before.current.len() == 0 {
                assert(drawn + before.current =~= drawn);
                lemma_bag_holds_each_once(old(self)@.next);
            }
            assert(drawn.push(before.current[0]) + before.current.skip(1) =~= drawn
                + before.current);
            assert(before.current.remove(0) =~= before.current.skip(1));
        }
        let piece = self.current_bag.remove(0);
        proof {
            lemma_draw_follows(old(self)@, piece, self@);
        }
        piece
    }
}

} // verus!
