use vstd::prelude::*;

verus! {

/// A direction the blank travels; applying it swaps the blank with the
/// neighbouring tile in that direction.
#[derive(Debug, Clone, Copy, PartialEq, Eq, Structural)]
pub enum Move {
    Up,
    Down,
    Left,
    Right,
}

impl Move {
    /// The fixed enumeration order used everywhere successors are generated.
    pub fn list() -> (r: Vec<Move>)
        ensures
            r@ == seq![Move::Up, Move::Down, Move::Left, Move::Right],
    {
        let mut v: Vec<Move> = Vec::new();
        v.push(Move::Up);
        v.push(Move::Down);
        v.push(Move::Left);
        v.push(Move::Right);
        proof {
            assert(v@ =~= seq![Move::Up, Move::Down, Move::Left, Move::Right]);
        }
        v
    }

    /// The characters of the direction's name.
    pub open spec fn name_chars(self) -> Seq<char> {
        match self {
            Move::Up => seq!['U', 'p'],
            Move::Down => seq!['D', 'o', 'w', 'n'],
            Move::Left => seq!['L', 'e', 'f', 't'],
            Move::Right => seq!['R', 'i', 'g', 'h', 't'],
        }
    }

    /// The name of the direction, as it appears in rendered solutions.
    pub fn name(&self) -> (r: &'static str)
        ensures
            r@ == self.name_chars(),
    {
        proof {
            reveal_strlit("Up");
            reveal_strlit("Down");
            reveal_strlit("Left");
            reveal_strlit("Right");
        }
        let r = match self {
            Move::Up => "Up",
            Move::Down => "Down",
            Move::Left => "Left",
            Move::Right => "Right",
        };
        proof {
            assert(r@ =~= self.name_chars());
        }
        r
    }
}

} // verus!
