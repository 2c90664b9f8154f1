use vstd::prelude::*;

verus! {

/// The two players.
#[derive(Clone, Copy, PartialEq, Eq, Hash, Debug, Default, Structural)]
pub enum Color {
    #[default]
    White,
    Black,
}

/// The opposing color, as a value usable in specifications.
pub open spec fn opponent_of(c: Color) -> Color {
    match c {
        Color::White => Color::Black,
        Color::Black => Color::White,
    }
}

impl Color {
    /// The other player.
    pub fn opponent(self) -> (r: Color)
        ensures
            r == opponent_of(self),
            r != self,
    {
        match self {
            Color::White => Color::Black,
            Color::Black => Color::White,
        }
    }
}

/// Stage of the game for one side: placing pieces from hand, sliding
/// them along board lines, or flying them anywhere once down to three.
#[derive(Clone, Copy, PartialEq, Eq, Hash, Debug, Structural)]
pub enum Phase {
    Placing,
    Sliding,
    Flying,
}

/// Outcome of a game so far.
#[derive(Clone, Copy, PartialEq, Eq, Hash, Debug, Default, Structural)]
pub enum GameResult {
    #[default]
    Ongoing,
    Winner(Color),
    Draw,
}

/// A point of the board, numbered 0..23 (bit `N` of a bitboard).
#[derive(Clone, Copy, PartialEq, Eq, Hash, Debug, Default, Structural)]
pub struct Square(pub u8);

/// Zero, one, or two squares captured by a single move. Usually zero or
/// one, but completing two mills at once (e.g. placing on a square shared
/// by two mill lines that are both already two-thirds owned) captures one
/// piece per mill formed.
#[derive(Clone, Copy, PartialEq, Eq, Hash, Debug, Structural)]
pub struct Captures {
    first: Option<Square>,
    second: Option<Square>,
}

impl Captures {
    /// A second capture only ever follows a first one.
    #[verifier::type_invariant]
    pub closed spec fn well_formed(self) -> bool {
        self.first.is_none() ==> self.second.is_none()
    }

    /// The captured squares, in the order they were given.
    pub closed spec fn squares(self) -> Seq<Square> {
        match (self.first, self.second) {
            (Some(a), Some(b)) => seq![a, b],
            (Some(a), None) => seq![a],
            (None, Some(b)) => seq![b],
            (None, None) => Seq::empty(),
        }
    }

    /// The value of `Captures::none()`.
    pub closed spec fn empty_set() -> Captures {
        Captures { first: None, second: None }
    }

    /// The value of `Captures::one(sq)`.
    pub closed spec fn single(sq: Square) -> Captures {
        Captures { first: Some(sq), second: None }
    }

    /// The value of `Captures::two(a, b)`.
    pub closed spec fn pair(a: Square, b: Square) -> Captures {
        Captures { first: Some(a), second: Some(b) }
    }

    /// What each way of building a capture set holds.
    pub proof fn lemma_shapes()
        ensures
            Self::empty_set().squares() == Seq::<Square>::empty(),
            forall|sq: Square| #[trigger] Self::single(sq).squares() == seq![sq],
            forall|a: Square, b: Square| #[trigger] Self::pair(a, b).squares() == seq![a, b],
    {
    }

    /// A move captures at most two pieces.
    pub proof fn lemma_at_most_two(self)
        ensures
            self.squares().len() <= 2,
    {
    }

    /// No capture.
    pub fn none() -> (r: Captures)
        ensures
            r == Self::empty_set(),
            r.squares() == Seq::<Square>::empty(),
    {
        Captures { first: None, second: None }
    }

    /// Exactly one captured square.
    pub fn one(sq: Square) -> (r: Captures)
        ensures
            r == Self::single(sq),
            r.squares() == seq![sq],
    {
        Captures { first: Some(sq), second: None }
    }

    /// Two captured squares, `a` then `b`.
    pub fn two(a: Square, b: Square) -> (r: Captures)
        ensures
            r == Self::pair(a, b),
            r.squares() == seq![a, b],
    {
        Captures { first: Some(a), second: Some(b) }
    }

    pub fn is_empty(&self) -> (r: bool)
        ensures
            r == (self.squares().len() == 0),
    {
        proof {
            use_type_invariant(self);
        }
        self.first.is_none()
    }

    pub fn len(&self) -> (r: usize)
        ensures
            r == self.squares().len(),
    {
        let mut n: usize = 0;
        if self.first.is_some() {
            n = n + 1;
        }
        if self.second.is_some() {
            n = n + 1;
        }
        n
    }

    pub fn contains(&self, sq: Square) -> (r: bool)
        ensures
            r == self.squares().contains(sq),
    {
        let r = self.first == Some(sq) || self.second == Some(sq);
        proof {
            if r {
                if self.first == Some(sq) {
                    assert(self.squares()[0] == sq);
                } else {
                    assert(self.squares()[self.squares().len() - 1] == sq);
                }
            }
        }
        r
    }

    /// The captured squares, in order.
    pub fn iter(&self) -> (r: Vec<Square>)
        ensures
            r@ == self.squares(),
    {
        let mut v: Vec<Square> = Vec::new();
        if let Some(a) = self.first {
            v.push(a);
        }
        if let Some(b) = self.second {
            v.push(b);
        }
        proof {
            assert(v@ =~= self.squares());
        }
        v
    }
}

/// One move of the side to move, together with the squares it captures.
#[derive(Clone, Copy, PartialEq, Eq, Hash, Debug, Structural)]
pub enum Move {
    Place { to: Square, captures: Captures },
    Slide { from: Square, to: Square, captures: Captures },
    Fly { from: Square, to: Square, captures: Captures },
}

/// The captures a move carries.
pub open spec fn captures_of(mv: Move) -> Captures {
    match mv {
        Move::Place { captures, .. } => captures,
        Move::Slide { captures, .. } => captures,
        Move::Fly { captures, .. } => captures,
    }
}

/// The square a move lands on.
pub open spec fn target_of(mv: Move) -> Square {
    match mv {
        Move::Place { to, .. } => to,
        Move::Slide { to, .. } => to,
        Move::Fly { to, .. } => to,
    }
}

/// The square a move leaves, if it moves a piece already on the board.
pub open spec fn origin_of(mv: Move) -> Option<Square> {
    match mv {
        Move::Place { .. } => None,
        Move::Slide { from, .. } => Some(from),
        Move::Fly { from, .. } => Some(from),
    }
}

} // verus!
