//! A tube: a stack of coloured balls with a fixed capacity.

use vstd::prelude::*;
use vstd::std_specs::cmp::PartialEqSpecImpl;
use vstd::string::*;

verus! {

/// Number of balls a tube can hold.
pub const TUBE_SIZE: usize = 4;

/// A stack of balls. `colors[0]` is the bottom; only the first `num_balls`
/// slots are meaningful, and whatever the remaining slots hold is ignored
/// by the view and by equality.
#[derive(Clone, Copy, Debug)]
pub struct Tube {
    pub colors: [u8; TUBE_SIZE],
    pub num_balls: u8,
}

/// The colour that a character stands for: a base-36 digit, where letters
/// count from ten in either case. `None` for any other character.
pub open spec fn color_of_char(c: char) -> Option<u8> {
    if '0' <= c && c <= '9' {
        Some((c as u8 - 48) as u8)
    } else if 'a' <= c && c <= 'z' {
        Some((c as u8 - 87) as u8)
    } else if 'A' <= c && c <= 'Z' {
        Some((c as u8 - 55) as u8)
    } else {
        None
    }
}

/// A tube's text is exactly `TUBE_SIZE` base-36 digits, bottom first.
pub open spec fn is_tube_text(text: Seq<char>) -> bool {
    &&& text.len() == TUBE_SIZE
    &&& forall|i: int| 0 <= i < text.len() ==> (#[trigger] color_of_char(text[i])).is_some()
}

/// The balls that a tube's text describes.
pub open spec fn colors_of_text(text: Seq<char>) -> Seq<u8> {
    Seq::new(text.len(), |i: int| color_of_char(text[i]).unwrap())
}

/// Whether every ball of a stack has the same colour.
pub open spec fn uniform(balls: Seq<u8>) -> bool {
    forall|i: int, j: int| 0 <= i < balls.len() && 0 <= j < balls.len() ==> balls[i] == balls[j]
}

/// A stack counts as sorted when it is full and of one colour.
pub open spec fn stack_solved(balls: Seq<u8>) -> bool {
    balls.len() == TUBE_SIZE && uniform(balls)
}

impl View for Tube {
    type V = Seq<u8>;

    /// The balls in the tube, bottom first.
    open spec fn view(&self) -> Seq<u8> {
        Seq::new(
            if self.num_balls as nat <= TUBE_SIZE as nat {
                self.num_balls as nat
            } else {
                TUBE_SIZE as nat
            },
            |i: int| self.colors[i],
        )
    }
}

fn color_of_byte(b: u8) -> (r: Option<u8>)
    ensures
        r == color_of_char(b as char),
{
    if 48 <= b && b <= 57 {
        Some(b - 48)
    } else if 97 <= b && b <= 122 {
        Some(b - 87)
    } else if 65 <= b && b <= 90 {
        Some(b - 55)
    } else {
        None
    }
}

impl Tube {
    /// The occupied count does not exceed the capacity.
    pub open spec fn wf(&self) -> bool {
        self.num_balls as nat <= TUBE_SIZE as nat
    }

    pub fn empty_tube() -> (t: Tube)
        ensures
            t.wf(),
            t@ == Seq::<u8>::empty(),
    {
        let t = Tube { colors: [0; TUBE_SIZE], num_balls: 0 };
        assert(t@ =~= Seq::<u8>::empty());
        t
    }

    /// Reads a tube's text, or tells that it is not one.
    pub fn parse(tube_str: &str) -> (r: Option<Tube>)
        ensures
            r.is_some() <==> is_tube_text(tube_str@),
            r.is_some() ==> r.unwrap().wf() && r.unwrap()@ == colors_of_text(tube_str@),
    {
        broadcast use is_ascii_spec_bytes;

        if !tube_str.is_ascii() {
            proof {
                lemma_not_ascii_not_tube_text(tube_str@);
            }
            return None;
        }
        let bytes = tube_str.as_bytes();
        assert(bytes@.len() == tube_str@.len());
        if bytes.len() != TUBE_SIZE {
            return None;
        }
        let mut colors = [0u8; TUBE_SIZE];
        let mut i: usize = 0;
        while i < TUBE_SIZE
            invariant
                i <= TUBE_SIZE,
                tube_str.is_ascii(),
                tube_str@.len() == TUBE_SIZE,
                bytes@.len() == TUBE_SIZE,
                forall|k: int| 0 <= k < TUBE_SIZE ==> #[trigger] bytes@[k] == tube_str@[k] as u8,
                forall|k: int| 0 <= k < i ==> color_of_char(tube_str@[k]) == Some(#[trigger] colors[k]),
            decreases TUBE_SIZE - i,
        {
            let b = bytes[i];
            match color_of_byte(b) {
                Some(c) => {
                    colors[i] = c;
                },
                None => {
                    assert(color_of_char(tube_str@[i as int]).is_none());
                    return None;
                },
            }
            i = i + 1;
        }
        let t = Tube { colors, num_balls: TUBE_SIZE as u8 };
        assert forall|k: int| 0 <= k < tube_str@.len() implies (#[trigger] color_of_char(
            tube_str@[k],
        )).is_some() by {
            assert(color_of_char(tube_str@[k]) == Some(colors[k]));
        }
        assert(t@ =~= colors_of_text(tube_str@));
        Some(t)
    }

    /// A full tube from its text.
    pub fn new_from_str(tube_str: &str) -> (t: Tube)
        requires
            is_tube_text(tube_str@),
        ensures
            t.wf(),
            t@ == colors_of_text(tube_str@),
    {
        Tube::parse(tube_str).unwrap()
    }

    pub fn is_empty(&self) -> (b: bool)
        ensures
            b == (self@.len() == 0),
    {
        self.num_balls == 0
    }

    pub fn is_full(&self) -> (b: bool)
        requires
            self.wf(),
        ensures
            b == (self@.len() == TUBE_SIZE),
    {
        self.num_balls == TUBE_SIZE as u8
    }

    /// Full and of one colour. An empty tube is not solved.
    pub fn is_solved(&self) -> (b: bool)
        requires
            self.wf(),
        ensures
            b == stack_solved(self@),
    {
        if self.num_balls != TUBE_SIZE as u8 {
            return false;
        }
        let mut i: usize = 0;
        while i < TUBE_SIZE - 1
            invariant
                i <= TUBE_SIZE - 1,
                self.num_balls == TUBE_SIZE,
                forall|k: int| 0 <= k <= i ==> #[trigger] self.colors[k] == self.colors[0],
            decreases TUBE_SIZE - 1 - i,
        {
            if self.colors[i] != self.colors[i + 1] {
                assert(self@[i as int] != self@[i + 1]);
                return false;
            }
            i = i + 1;
        }
        assert forall|a: int, b: int| 0 <= a < self@.len() && 0 <= b < self@.len() implies self@[a]
            == self@[b] by {
            assert(self.colors[a] == self.colors[0]);
            assert(self.colors[b] == self.colors[0]);
        }
        true
    }

    /// The colour of the highest ball.
    pub fn get_top_color(&self) -> (c: u8)
        requires
            self.wf(),
            self@.len() > 0,
        ensures
            c == self@.last(),
    {
        self.colors[(self.num_balls - 1) as usize]
    }

    /// Puts one ball on top.
    pub fn push(&mut self, color: u8)
        requires
            old(self).wf(),
            old(self)@.len() < TUBE_SIZE,
        ensures
            final(self).wf(),
            final(self)@ == old(self)@.push(color),
    {
        self.colors[self.num_balls as usize] = color;
        self.num_balls = self.num_balls + 1;
        assert(self@ =~= old(self)@.push(color));
    }

    /// Takes the top ball off and hands it back.
    pub fn pop(&mut self) -> (color: u8)
        requires
            old(self).wf(),
            old(self)@.len() > 0,
        ensures
            final(self).wf(),
            final(self)@ == old(self)@.drop_last(),
            color == old(self)@.last(),
    {
        self.num_balls = self.num_balls - 1;
        let color = self.colors[self.num_balls as usize];
        assert(self@ =~= old(self)@.drop_last());
        color
    }
}

impl PartialEqSpecImpl for Tube {
    open spec fn obeys_eq_spec() -> bool {
        true
    }

    /// Two tubes are equal when they hold the same balls in the same order.
    open spec fn eq_spec(&self, other: &Tube) -> bool {
        self@ == other@
    }
}

impl PartialEq for Tube {
    fn eq(&self, other: &Tube) -> (b: bool) {
        let n: usize = if self.num_balls as usize <= TUBE_SIZE {
            self.num_balls as usize
        } else {
            TUBE_SIZE
        };
        let m: usize = if other.num_balls as usize <= TUBE_SIZE {
            other.num_balls as usize
        } else {
            TUBE_SIZE
        };
        if n != m {
            assert(self@.len() != other@.len());
            return false;
        }
        let mut i: usize = 0;
        while i < n
            invariant
                i <= n <= TUBE_SIZE,
                n == self@.len(),
                n == other@.len(),
                forall|k: int| 0 <= k < i ==> #[trigger] self.colors[k] == other.colors[k],
            decreases n - i,
        {
            if self.colors[i] != other.colors[i] {
                assert(self@[i as int] != other@[i as int]);
                return false;
            }
            i = i + 1;
        }
        assert(self@ =~= other@);
        true
    }
}

impl Eq for Tube {

}

/// A text with a character outside ASCII is no tube text.
proof fn lemma_not_ascii_not_tube_text(text: Seq<char>)
    requires
        !vstd::utf8::is_ascii_chars(text),
    ensures
        !is_tube_text(text),
{
    if is_tube_text(text) {
        assert forall|i: int| 0 <= i < text.len() implies '\0' <= #[trigger] text[i] <= '\u{7f}' by {
            assert(color_of_char(text[i]).is_some());
        }
    }
}

/// Pushing a ball and popping it again gives the tube back.
pub proof fn lemma_push_then_pop(balls: Seq<u8>, color: u8)
    ensures
        balls.push(color).drop_last() == balls,
        balls.push(color).last() == color,
        balls.push(color).len() == balls.len() + 1,
{
    assert(balls.push(color).drop_last() =~= balls);
}

} // verus!
