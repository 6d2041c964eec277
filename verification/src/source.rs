//! Where the faces of the dice come from.

use rand::Rng;
use vstd::prelude::*;

verus! {

/// A source of dice: it is asked for one die at a time.
///
/// Whoever implements it promises a face between 1 and the number of sides.
pub trait DiceRollSource {
    /// Rolls one die of `sides` sides.
    fn roll_single_die(&mut self, sides: u64) -> (face: u64)
        requires
            sides >= 1,
        ensures
            1 <= face <= sides,
    ;
}

/// The face that a die of `sides` sides shows for `face`: the face itself
/// where the die can show it, else the nearest that it can.
pub open spec fn clamped(face: u64, sides: u64) -> u64 {
    if face < 1 {
        1
    } else if face > sides {
        sides
    } else {
        face
    }
}

/// The faces that the next `n` dice of `sides` sides show from a tape: each
/// die takes the next face of the tape, as far as it can show it. A tape that
/// runs out goes on with ones.
pub open spec fn dealt(tape: Seq<u64>, n: nat, sides: u64) -> Seq<u64> {
    Seq::new(
        n,
        |i: int|
            if i < tape.len() {
                clamped(tape[i], sides)
            } else {
                1u64
            },
    )
}

/// What is left of the tape behind its next `n` faces.
pub open spec fn left(tape: Seq<u64>, n: nat) -> Seq<u64> {
    if n <= tape.len() {
        tape.skip(n as int)
    } else {
        Seq::empty()
    }
}

/// The face that the next die of `sides` sides shows from a tape.
pub open spec fn next_face(tape: Seq<u64>, sides: u64) -> u64 {
    dealt(tape, 1, sides)[0]
}

/// A source of dice that keeps, for contracts only, what it was asked and
/// what it showed: what the evaluator returns is stated as a function of the
/// expression and of the faces drawn while it ran.
pub trait Recorded {
    /// The faces shown so far, the oldest first.
    spec fn drawn(&self) -> Seq<u64>;

    /// The numbers of sides of the dice asked for so far, the oldest first.
    spec fn asked(&self) -> Seq<u64>;

    /// The tape that the source follows, where the faces to come are fixed
    /// in advance; nothing where they are not.
    spec fn script(&self) -> Option<Seq<u64>>;

    /// Rolls one die of `sides` sides. A source that follows a tape shows
    /// what the die takes from the tape.
    fn draw(&mut self, sides: u64) -> (face: u64)
        requires
            sides >= 1,
        ensures
            1 <= face <= sides,
            final(self).drawn() == old(self).drawn().push(face),
            final(self).asked() == old(self).asked().push(sides),
            old(self).script() matches Some(tape) ==> face == next_face(tape, sides),
            old(self).script() matches Some(tape) ==> final(self).script() == Some(left(tape, 1)),
            old(self).script() is None ==> final(self).script() is None,
    ;
}

/// Any source of dice, with the faces it shows kept.
pub struct Recorder<'a, R: DiceRollSource> {
    source: &'a mut R,
    shown: Ghost<Seq<u64>>,
    sides: Ghost<Seq<u64>>,
}

impl<'a, R: DiceRollSource> Recorder<'a, R> {
    /// `source`, with no face shown yet. It follows no tape.
    pub fn new(source: &'a mut R) -> (recorder: Self)
        ensures
            recorder.drawn() == Seq::<u64>::empty(),
            recorder.asked() == Seq::<u64>::empty(),
            recorder.script() is None,
    {
        Recorder { source, shown: Ghost(Seq::empty()), sides: Ghost(Seq::empty()) }
    }
}

impl<'a, R: DiceRollSource> Recorded for Recorder<'a, R> {
    closed spec fn drawn(&self) -> Seq<u64> {
        self.shown@
    }

    closed spec fn asked(&self) -> Seq<u64> {
        self.sides@
    }

    open spec fn script(&self) -> Option<Seq<u64>> {
        None
    }

    fn draw(&mut self, sides: u64) -> (face: u64) {
        let face = self.source.roll_single_die(sides);
        self.shown = Ghost(self.shown@.push(face));
        self.sides = Ghost(self.sides@.push(sides));
        face
    }
}

/// `rand::rngs::ThreadRng`, the handle of the random generator of a thread,
/// as a value that is carried around: nothing inside it is looked at.
#[verifier::external_type_specification]
#[verifier::external_body]
pub struct ExThreadRng(rand::rngs::ThreadRng);

/// The generator of the current thread, from `rand::thread_rng`. Nothing is
/// claimed of it. The call fails only where the system has no randomness to
/// seed the generator with.
#[verifier::external_body]
pub(crate) fn thread_generator() -> rand::rngs::ThreadRng {
    rand::thread_rng()
}

/// One face from `Rng::gen_range` on the range from 1 to `sides`, both
/// included: the call returns a value of the range it is given. It panics
/// on an empty range, which `sides >= 1` excludes, and where the system gives
/// the generator no randomness to seed itself with anew.
#[verifier::external_body]
fn uniform_face(rng: &mut rand::rngs::ThreadRng, sides: u64) -> (face: u64)
    requires
        sides >= 1,
    ensures
        1 <= face <= sides,
{
    rng.gen_range(1..=sides)
}

/// Dice that fall by the random generator of the current thread.
pub struct ThreadRngSource {
    rng: rand::rngs::ThreadRng,
    shown: Ghost<Seq<u64>>,
    sides: Ghost<Seq<u64>>,
}

impl ThreadRngSource {
    /// A source that has shown no face yet. It follows no tape.
    pub fn new() -> (source: Self)
        ensures
            source.drawn() == Seq::<u64>::empty(),
            source.asked() == Seq::<u64>::empty(),
            source.script() is None,
    {
        ThreadRngSource {
            rng: thread_generator(),
            shown: Ghost(Seq::empty()),
            sides: Ghost(Seq::empty()),
        }
    }
}

impl Recorded for ThreadRngSource {
    closed spec fn drawn(&self) -> Seq<u64> {
        self.shown@
    }

    closed spec fn asked(&self) -> Seq<u64> {
        self.sides@
    }

    open spec fn script(&self) -> Option<Seq<u64>> {
        None
    }

    fn draw(&mut self, sides: u64) -> (face: u64) {
        let face = uniform_face(&mut self.rng, sides);
        self.shown = Ghost(self.shown@.push(face));
        self.sides = Ghost(self.sides@.push(sides));
        face
    }
}

impl DiceRollSource for ThreadRngSource {
    /// Rolls one die of `sides` sides by the generator of the thread, and
    /// keeps the face among those drawn.
    fn roll_single_die(&mut self, sides: u64) -> (face: u64)
        ensures
            final(self).drawn() == old(self).drawn().push(face),
            final(self).asked() == old(self).asked().push(sides),
    {
        self.draw(sides)
    }
}

/// Dice that show the faces of a list, one after the other: the list is the
/// tape that the source follows.
///
/// A face of the list that the die asked for cannot show counts as the
/// nearest that it can: 0 as 1, and a face over the number of sides as the
/// highest. When the list is used up, every die shows 1.
pub struct ReplaySource {
    faces: Vec<u64>,
    next: usize,
    shown: Ghost<Seq<u64>>,
    sides: Ghost<Seq<u64>>,
}

impl ReplaySource {
    /// A source that will show `faces`.
    pub fn new(faces: Vec<u64>) -> (source: Self)
        ensures
            source.drawn() == Seq::<u64>::empty(),
            source.asked() == Seq::<u64>::empty(),
            source.pending() == faces@,
            source.script() == Some(faces@),
    {
        let source = ReplaySource {
            faces,
            next: 0,
            shown: Ghost(Seq::empty()),
            sides: Ghost(Seq::empty()),
        };
        assert(source.faces@.skip(0) =~= source.faces@);
        source
    }

    /// The faces of the list that have not been asked for yet.
    pub closed spec fn pending(&self) -> Seq<u64> {
        if self.next <= self.faces@.len() {
            self.faces@.skip(self.next as int)
        } else {
            Seq::empty()
        }
    }

    /// The number of faces of the list that have not been asked for yet.
    pub fn remaining(&self) -> (n: usize)
        ensures
            n == self.pending().len(),
    {
        if self.next <= self.faces.len() {
            self.faces.len() - self.next
        } else {
            0
        }
    }

    /// Rolls one die of `sides` sides: the next face of the list, as far as
    /// the die can show it.
    pub fn next_face(&mut self, sides: u64) -> (face: u64)
        requires
            sides >= 1,
        ensures
            1 <= face <= sides,
            face == next_face(old(self).pending(), sides),
            final(self).pending() == left(old(self).pending(), 1),
            final(self).drawn() == old(self).drawn().push(face),
            final(self).asked() == old(self).asked().push(sides),
    {
        let face = if self.next < self.faces.len() {
            let f = self.faces[self.next];
            assert(self.faces@.skip(self.next as int).skip(1) =~= self.faces@.skip(self.next + 1));
            self.next = self.next + 1;
            if f < 1 {
                1
            } else if f > sides {
                sides
            } else {
                f
            }
        } else {
            assert(left(self.pending(), 1) =~= Seq::<u64>::empty());
            1
        };
        self.shown = Ghost(self.shown@.push(face));
        self.sides = Ghost(self.sides@.push(sides));
        face
    }
}

impl Recorded for ReplaySource {
    closed spec fn drawn(&self) -> Seq<u64> {
        self.shown@
    }

    closed spec fn asked(&self) -> Seq<u64> {
        self.sides@
    }

    open spec fn script(&self) -> Option<Seq<u64>> {
        Some(self.pending())
    }

    fn draw(&mut self, sides: u64) -> (face: u64) {
        self.next_face(sides)
    }
}

impl DiceRollSource for ReplaySource {
    /// Rolls one die of `sides` sides: the next face of the list, as far as
    /// the die can show it, and 1 when the list is used up. The face is kept
    /// among those drawn.
    fn roll_single_die(&mut self, sides: u64) -> (face: u64)
        ensures
            face == next_face(old(self).pending(), sides),
            final(self).pending() == left(old(self).pending(), 1),
            final(self).drawn() == old(self).drawn().push(face),
            final(self).asked() == old(self).asked().push(sides),
    {
        self.next_face(sides)
    }
}

} // verus!
