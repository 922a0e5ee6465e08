//! The state that the analysis attaches to each board.

use vstd::prelude::*;

verus! {

/// What the analysis knows of one board.
#[derive(Clone, Copy, Debug, PartialEq, Eq, Structural)]
pub enum Status {
    /// The score of the board is known and final.
    Stable(i8),
    /// The score is at least the first field; the second field counts the
    /// successors whose score is still awaited.
    Unstable(i8, u8),
}

impl Status {
    /// The score, or the lower bound known so far.
    pub open spec fn value(self) -> int {
        match self {
            Status::Stable(v) => v as int,
            Status::Unstable(b, _) => b as int,
        }
    }

    /// A measure of the work left on the board: `0` once it is stable.
    pub open spec fn weight(self) -> nat {
        match self {
            Status::Stable(_) => 0,
            Status::Unstable(_, r) => r as nat + 1,
        }
    }

    /// The score or bound lies within `-n..=n`.
    pub open spec fn within(self, n: int) -> bool {
        -n <= self.value() <= n
    }

    /// The score or bound lies within `-n..=n` and is even if `n` is, odd
    /// if `n` is: what holds of every board with `n` seeds.
    pub open spec fn fits(self, n: int) -> bool {
        self.within(n) && (self.value() - n) % 2 == 0
    }

    /// What holds of a board with `n` seeds when the sweep at saturation
    /// level `sat_lvl` starts: if it is unstable, its bound is at most the
    /// level, and after the first sweep it awaits a successor.
    pub open spec fn capped(self, n: int, sat_lvl: int) -> bool {
        match self {
            Status::Stable(_) => true,
            Status::Unstable(b, r) => b <= sat_lvl && (sat_lvl < n ==> r >= 1),
        }
    }

    /// What holds of a board once the sweep at saturation level `sat_lvl`
    /// visited it: if it is unstable, its bound is below the level and it
    /// awaits a successor.
    pub open spec fn swept(self, sat_lvl: int) -> bool {
        match self {
            Status::Stable(_) => true,
            Status::Unstable(b, r) => b < sat_lvl && r >= 1,
        }
    }

    /// `next` is a legal later status during the sweep at saturation level
    /// `sat_lvl`: it is one by `precedes`, and while the board is unstable
    /// its bound stays at most the level, or below it, if it was so, and
    /// the board still awaits a successor if it did.
    pub open spec fn keeps(self, next: Status, sat_lvl: int) -> bool {
        &&& self.precedes(next)
        &&& match (self, next) {
            (Status::Unstable(b, r), Status::Unstable(b2, r2)) => {
                &&& b <= sat_lvl ==> b2 <= sat_lvl
                &&& b < sat_lvl ==> b2 < sat_lvl
                &&& r >= 1 ==> r2 >= 1
            },
            _ => true,
        }
    }

    /// `next` is a legal later status of a board whose status is `self`: a
    /// stable board stays as it is, and the bound of an unstable board does
    /// not decrease while it stays unstable.
    pub open spec fn precedes(self, next: Status) -> bool {
        match self {
            Status::Stable(_) => next == self,
            Status::Unstable(b, r) => match next {
                Status::Stable(_) => true,
                Status::Unstable(b2, r2) => b <= b2 && r2 <= r,
            },
        }
    }

    /// The two bytes that stand for a status in a file: the score or bound
    /// in two's complement, then `0` for a stable board and the number of
    /// awaited successors plus one for an unstable one.
    pub open spec fn bytes(self) -> Seq<u8> {
        let v = self.value();
        seq![
            if v >= 0 { v as u8 } else { (v + 256) as u8 },
            match self {
                Status::Stable(_) => 0u8,
                Status::Unstable(_, r) => (r + 1) as u8,
            },
        ]
    }

    /// The status that two bytes of a file stand for.
    pub open spec fn from_bytes(lo: u8, hi: u8) -> Status {
        let v = if lo < 128 {
            lo as i8
        } else {
            (lo - 256) as i8
        };
        if hi == 0 {
            Status::Stable(v)
        } else {
            Status::Unstable(v, (hi - 1) as u8)
        }
    }

    /// The status of a board after one of its successors reported the final
    /// score `up`, under the saturation level `sat_lvl`.
    pub open spec fn updated(self, up: i8, sat_lvl: i8) -> Status
        recommends
            up > i8::MIN,
    {
        match self {
            Status::Stable(_) => self,
            Status::Unstable(b, r) => {
                let neg = (-up) as i8;
                let best = if b < neg { neg } else { b };
                if r <= 1 {
                    Status::Stable(best)
                } else if b == sat_lvl || neg == sat_lvl {
                    Status::Stable(sat_lvl)
                } else {
                    Status::Unstable(best, (r - 1) as u8)
                }
            },
        }
    }

    /// The status of a board after the sweep at saturation level `sat_lvl`
    /// visited it.
    pub open spec fn stabilized(self, sat_lvl: i8) -> Status {
        match self {
            Status::Stable(_) => self,
            Status::Unstable(b, r) => {
                if sat_lvl == 0 {
                    Status::Stable(0)
                } else if b == sat_lvl || r == 0 {
                    Status::Stable(b)
                } else {
                    self
                }
            },
        }
    }
}

/// The analysis value of one board, in two bytes: the score and a counter
/// that is zero once the score is final.
#[derive(Clone, Copy, Debug, PartialEq, Eq, Structural)]
pub struct State {
    val: i8,
    nsuc: u8,
}

impl View for State {
    type V = Status;

    closed spec fn view(&self) -> Status {
        if self.nsuc == 0 {
            Status::Stable(self.val)
        } else {
            Status::Unstable(self.val, (self.nsuc - 1) as u8)
        }
    }
}

impl State {
    /// An unstable state with lower bound `v` that awaits `n` successors.
    pub fn new(v: i8, n: u8) -> (res: State)
        requires
            n < u8::MAX,
        ensures
            res@ == Status::Unstable(v, n),
    {
        State { val: v, nsuc: n + 1 }
    }

    /// A stable state with score `v`.
    pub fn stable(v: i8) -> (res: State)
        ensures
            res@ == Status::Stable(v),
    {
        State { val: v, nsuc: 0 }
    }

    /// The status that this state stands for.
    pub fn status(&self) -> (res: Status)
        ensures
            res == self@,
    {
        if self.nsuc == 0 {
            Status::Stable(self.val)
        } else {
            Status::Unstable(self.val, self.nsuc - 1)
        }
    }

    /// The score of the board, or the lower bound known so far.
    pub fn value(&self) -> (res: i8)
        ensures
            res == self@.value(),
    {
        self.val
    }

    /// Whether the score is final.
    pub fn is_stable(&self) -> (res: bool)
        ensures
            res == (self@ is Stable),
    {
        self.nsuc == 0
    }

    /// Takes in the final score `up` of a successor. Returns the final score
    /// of this board if that made it stable, and `None` otherwise.
    pub fn update(&mut self, up: i8, sat_lvl: i8) -> (res: Option<i8>)
        requires
            up > i8::MIN,
        ensures
            final(self)@ == old(self)@.updated(up, sat_lvl),
            old(self)@.precedes(final(self)@),
            res == match (old(self)@, final(self)@) {
                (Status::Unstable(_, _), Status::Stable(v)) => Some(v),
                _ => None,
            },
    {
        if self.nsuc == 0 {
            return None;
        }
        let neg: i8 = -up;
        let best: i8 = if self.val < neg { neg } else { self.val };
        if self.nsuc <= 2 {
            self.nsuc = 0;
            self.val = best;
            Some(best)
        } else if self.val == sat_lvl || neg == sat_lvl {
            self.nsuc = 0;
            self.val = sat_lvl;
            Some(sat_lvl)
        } else {
            self.nsuc = self.nsuc - 1;
            self.val = best;
            None
        }
    }

    /// Makes the board stable if nothing can change its score any more:
    /// the bound has reached `sat_lvl`, or no successor is awaited. Returns
    /// the final score in that case. At saturation level `0` every unstable
    /// board becomes stable with score `0`, and nothing is returned.
    pub fn try_stabilize(&mut self, sat_lvl: i8) -> (res: Option<i8>)
        ensures
            final(self)@ == old(self)@.stabilized(sat_lvl),
            old(self)@.precedes(final(self)@),
            res == match (old(self)@, final(self)@) {
                (Status::Unstable(_, _), Status::Stable(v)) if sat_lvl != 0 => Some(v),
                _ => None,
            },
    {
        if sat_lvl == 0 {
            if self.nsuc != 0 {
                self.val = 0;
                self.nsuc = 0;
            }
            None
        } else if self.nsuc != 0 && (self.val == sat_lvl || self.nsuc == 1) {
            self.nsuc = 0;
            Some(self.val)
        } else {
            None
        }
    }

    /// The two bytes that stand for this state in a file.
    pub fn serialize(&self) -> (res: [u8; 2])
        ensures
            res@ == self@.bytes(),
    {
        let lo: u8 = if self.val >= 0 {
            self.val as u8
        } else {
            (self.val as i16 + 256) as u8
        };
        [lo, self.nsuc]
    }

    /// The state that two bytes of a file stand for.
    pub fn deserialize(buf: [u8; 2]) -> (res: State)
        ensures
            res@ == Status::from_bytes(buf[0], buf[1]),
            res@.bytes() == buf@,
    {
        let v: i8 = if buf[0] < 128 {
            buf[0] as i8
        } else {
            (buf[0] as i16 - 256) as i8
        };
        let res = State { val: v, nsuc: buf[1] };
        assert(res@.bytes() =~= buf@);
        res
    }
}

impl Default for State {
    /// An unstable state with the lowest bound, awaiting nothing.
    fn default() -> (res: State)
        ensures
            res@ == Status::Unstable(i8::MIN, 0),
    {
        State { val: i8::MIN, nsuc: 1 }
    }
}

/// Reading back what was written gives the same status: no two statuses of
/// states share their bytes.
pub proof fn lemma_serialize_roundtrip(a: State, b: State)
    requires
        a@.bytes() == b@.bytes(),
    ensures
        a@ == b@,
{
    assert(a@.bytes()[0] == b@.bytes()[0]);
    assert(a@.bytes()[1] == b@.bytes()[1]);
}

/// The bytes of a state stand for its status.
pub proof fn lemma_bytes_status(a: State)
    ensures
        Status::from_bytes(a@.bytes()[0], a@.bytes()[1]) == a@,
{
}

/// What one update does to a board with `n` seeds during the sweep at
/// saturation level `sat_lvl`, if the reported score is one of a board
/// with `n` seeds and within the level: the status still fits the class,
/// it is a legal later status, work was done, and a score that becomes
/// final lies within the level.
pub proof fn lemma_updated(s: Status, up: i8, sat_lvl: i8, n: int)
    requires
        s.fits(n),
        s.capped(n, sat_lvl as int),
        0 <= sat_lvl <= n,
        (n - sat_lvl) % 2 == 0,
        -sat_lvl <= up <= sat_lvl,
        (up - n) % 2 == 0,
    ensures
        s.updated(up, sat_lvl).fits(n),
        s.keeps(s.updated(up, sat_lvl), sat_lvl as int),
        s.updated(up, sat_lvl).capped(n, sat_lvl as int),
        s.updated(up, sat_lvl).weight() <= s.weight(),
        s is Unstable ==> s.updated(up, sat_lvl).weight() < s.weight(),
        s is Unstable && s.updated(up, sat_lvl) is Stable ==> -sat_lvl <= s.updated(
            up,
            sat_lvl,
        ).value() <= sat_lvl,
{
}

/// What a visit of the sweep at saturation level `sat_lvl` does to a board
/// with `n` seeds: the status still fits the class, it is a legal later
/// status, the board counts as swept, and a score that becomes final lies
/// within the level.
pub proof fn lemma_stabilized(s: Status, sat_lvl: i8, n: int)
    requires
        s.fits(n),
        s.capped(n, sat_lvl as int),
        0 <= sat_lvl <= n,
        (n - sat_lvl) % 2 == 0,
    ensures
        s.stabilized(sat_lvl).fits(n),
        s.keeps(s.stabilized(sat_lvl), sat_lvl as int),
        s.stabilized(sat_lvl).swept(sat_lvl as int),
        s.stabilized(sat_lvl).capped(n, sat_lvl as int),
        s is Unstable && s.stabilized(sat_lvl) is Stable ==> -sat_lvl <= s.stabilized(
            sat_lvl,
        ).value() <= sat_lvl,
{
}

/// `keeps` is transitive, and what it keeps.
pub proof fn lemma_keeps_trans(a: Status, b: Status, c: Status, sat_lvl: int)
    requires
        a.keeps(b, sat_lvl),
        b.keeps(c, sat_lvl),
    ensures
        a.keeps(c, sat_lvl),
{
}

} // verus!
