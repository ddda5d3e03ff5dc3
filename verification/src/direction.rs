//! Spatial directions used by navigation and movement commands.

use vstd::prelude::*;

verus! {

/// One of the four spatial directions a navigation command can take.
#[derive(Clone, Copy, Debug, PartialEq, Eq, Structural)]
pub enum Direction {
    Left,
    Right,
    Up,
    Down,
}

/// Error returned when a string is not one of the four direction literals.
/// It carries the offending text so callers can report it.
#[derive(Debug)]
pub struct ParseError {
    pub text: String,
}

/// The inverse of a direction: left and right swap, up and down swap.
pub open spec fn inverse_of(d: Direction) -> Direction {
    match d {
        Direction::Left => Direction::Right,
        Direction::Right => Direction::Left,
        Direction::Up => Direction::Down,
        Direction::Down => Direction::Up,
    }
}

/// The direction a piece of text denotes, if any.  Only the four exact
/// lower-case literals parse; nothing is trimmed or case-folded.
pub open spec fn direction_of_text(s: Seq<char>) -> Option<Direction> {
    if s == "left"@ {
        Some(Direction::Left)
    } else if s == "right"@ {
        Some(Direction::Right)
    } else if s == "up"@ {
        Some(Direction::Up)
    } else if s == "down"@ {
        Some(Direction::Down)
    } else {
        None
    }
}

impl Direction {
    /// Get the inverse of a given direction.
    ///
    /// Example:
    /// ```
    /// Direction::Left.inverse() // Direction::Right
    /// ```
    pub fn inverse(&self) -> (r: Direction)
        ensures
            r == inverse_of(*self),
    {
        match self {
            Direction::Left => Direction::Right,
            Direction::Right => Direction::Left,
            Direction::Up => Direction::Down,
            Direction::Down => Direction::Up,
        }
    }

    /// Parse a string into a direction.
    ///
    /// Example:
    /// ```
    /// Direction::from_str("left") // Direction::Left
    /// ```
    pub fn from_str(unparsed: &str) -> (r: Result<Direction, ParseError>)
        ensures
            match r {
                Ok(d) => direction_of_text(unparsed@) == Some(d),
                Err(e) => direction_of_text(unparsed@) is None && e.text@ == unparsed@,
            },
    {
        let text = copy_text(unparsed);
        if text == copy_text("left") {
            Ok(Direction::Left)
        } else if text == copy_text("right") {
            Ok(Direction::Right)
        } else if text == copy_text("up") {
            Ok(Direction::Up)
        } else if text == copy_text("down") {
            Ok(Direction::Down)
        } else {
            Err(ParseError { text })
        }
    }
}

/// Law: taking the inverse of a direction twice gives the direction back.
pub proof fn lemma_inverse_involution(d: Direction)
    ensures
        inverse_of(inverse_of(d)) == d,
{
}

/// Copy borrowed text into an owned string with the same characters.
fn copy_text(s: &str) -> (r: String)
    ensures
        r@ == s@,
{
    <String as vstd::string::StringExecFns>::from_str(s)
}

} // verus!
