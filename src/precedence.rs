use vstd::prelude::*;

verus! {

/// Binding strength of an operator, weakest first.
#[derive(Debug, Clone, Copy, PartialEq, Eq, Structural)]
pub enum Precedence {
    Lowest,
    Assignment,
    Or,
    And,
    Equality,
    Comparison,
    Term,
    Factor,
    Unary,
    Call,
    Primary,
}

/// The highest level, that of `Primary`.
pub const TOP_LEVEL: usize = 10;

impl Precedence {
    /// Position of the level in the total order `Lowest < Assignment < ... < Primary`.
    pub open spec fn level(self) -> nat {
        match self {
            Precedence::Lowest => 0,
            Precedence::Assignment => 1,
            Precedence::Or => 2,
            Precedence::And => 3,
            Precedence::Equality => 4,
            Precedence::Comparison => 5,
            Precedence::Term => 6,
            Precedence::Factor => 7,
            Precedence::Unary => 8,
            Precedence::Call => 9,
            Precedence::Primary => 10,
        }
    }

    /// The level at a given position, if there is one.
    pub open spec fn at_level(n: int) -> Option<Precedence> {
        if n == 0 {
            Some(Precedence::Lowest)
        } else if n == 1 {
            Some(Precedence::Assignment)
        } else if n == 2 {
            Some(Precedence::Or)
        } else if n == 3 {
            Some(Precedence::And)
        } else if n == 4 {
            Some(Precedence::Equality)
        } else if n == 5 {
            Some(Precedence::Comparison)
        } else if n == 6 {
            Some(Precedence::Term)
        } else if n == 7 {
            Some(Precedence::Factor)
        } else if n == 8 {
            Some(Precedence::Unary)
        } else if n == 9 {
            Some(Precedence::Call)
        } else if n == 10 {
            Some(Precedence::Primary)
        } else {
            None
        }
    }

    /// `self` raised by `u` levels; a step past `Primary` leaves it unchanged.
    pub open spec fn raised(self, u: int) -> Precedence {
        match Precedence::at_level(self.level() + u) {
            Some(p) => p,
            None => self,
        }
    }

    /// `self` lowered by `u` levels; a step below `Lowest` leaves it unchanged.
    pub open spec fn lowered(self, u: int) -> Precedence {
        match Precedence::at_level(self.level() - u) {
            Some(p) => p,
            None => self,
        }
    }

    /// Position of the level in the order, as a number.
    pub fn ordinal(self) -> (r: usize)
        ensures
            r == self.level(),
    {
        match self {
            Precedence::Lowest => 0,
            Precedence::Assignment => 1,
            Precedence::Or => 2,
            Precedence::And => 3,
            Precedence::Equality => 4,
            Precedence::Comparison => 5,
            Precedence::Term => 6,
            Precedence::Factor => 7,
            Precedence::Unary => 8,
            Precedence::Call => 9,
            Precedence::Primary => 10,
        }
    }

    /// The level at position `value`, or `None` past `Primary`.
    pub fn from_ordinal(value: usize) -> (r: Option<Precedence>)
        ensures
            r == Precedence::at_level(value as int),
            r matches Some(p) ==> p.level() == value,
    {
        match value {
            0 => Some(Precedence::Lowest),
            1 => Some(Precedence::Assignment),
            2 => Some(Precedence::Or),
            3 => Some(Precedence::And),
            4 => Some(Precedence::Equality),
            5 => Some(Precedence::Comparison),
            6 => Some(Precedence::Term),
            7 => Some(Precedence::Factor),
            8 => Some(Precedence::Unary),
            9 => Some(Precedence::Call),
            10 => Some(Precedence::Primary),
            _ => None,
        }
    }

    /// Compares binding strengths: `self` binds no tighter than `o`.
    pub fn at_most(self, o: Precedence) -> (r: bool)
        ensures
            r == (self.level() <= o.level()),
    {
        self.ordinal() <= o.ordinal()
    }
}

impl std::ops::Add<usize> for Precedence {
    type Output = Precedence;

    fn add(self, u: usize) -> (r: Precedence)
        ensures
            r == self.raised(u as int),
    {
        let r = self.ordinal();
        if u <= TOP_LEVEL - r {
            match Precedence::from_ordinal(r + u) {
                Some(p) => p,
                None => self,
            }
        } else {
            self
        }
    }
}

impl vstd::std_specs::ops::AddSpecImpl<usize> for Precedence {
    open spec fn obeys_add_spec() -> bool {
        true
    }

    open spec fn add_req(self, u: usize) -> bool {
        true
    }

    open spec fn add_spec(self, u: usize) -> Precedence {
        self.raised(u as int)
    }
}

impl std::ops::Sub<usize> for Precedence {
    type Output = Precedence;

    fn sub(self, u: usize) -> (r: Precedence)
        ensures
            r == self.lowered(u as int),
    {
        let r = self.ordinal();
        if u <= r {
            match Precedence::from_ordinal(r - u) {
                Some(p) => p,
                None => self,
            }
        } else {
            self
        }
    }
}

impl vstd::std_specs::ops::SubSpecImpl<usize> for Precedence {
    open spec fn obeys_sub_spec() -> bool {
        true
    }

    open spec fn sub_req(self, u: usize) -> bool {
        true
    }

    open spec fn sub_spec(self, u: usize) -> Precedence {
        self.lowered(u as int)
    }
}

impl From<Precedence> for usize {
    fn from(value: Precedence) -> (r: usize)
        ensures
            r == value.level(),
    {
        value.ordinal()
    }
}

impl vstd::std_specs::convert::FromSpecImpl<Precedence> for usize {
    open spec fn obeys_from_spec() -> bool {
        true
    }

    open spec fn from_spec(value: Precedence) -> usize {
        value.level() as usize
    }
}

impl TryFrom<usize> for Precedence {
    type Error = ();

    fn try_from(value: usize) -> (r: Result<Precedence, ()>)
        ensures
            r == (match Precedence::at_level(value as int) {
                Some(p) => Ok(p),
                None => Err(()),
            }),
    {
        match Precedence::from_ordinal(value) {
            Some(p) => Ok(p),
            None => Err(()),
        }
    }
}

impl vstd::std_specs::convert::TryFromSpecImpl<usize> for Precedence {
    open spec fn obeys_try_from_spec() -> bool {
        true
    }

    open spec fn try_from_spec(value: usize) -> Result<Precedence, ()> {
        match Precedence::at_level(value as int) {
            Some(p) => Ok(p),
            None => Err(()),
        }
    }
}

} // verus!
