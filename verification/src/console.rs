//! A console that can be redrawn in place.
//!
//! A list of players needs more than one line, so the screen is redrawn from
//! the top each pass. Whether the console honours escapes is learned once,
//! when asking it to; when it will not, frames simply scroll instead of
//! replacing each other, which is worse to read but still correct.

use vstd::prelude::*;

verus! {

/// The escape sequence that homes the cursor and clears from there down.
/// Clearing first would blank the screen for a moment and make it flicker.
pub open spec fn home_and_clear() -> Seq<char> {
    seq!['\x1b', '[', 'H', '\x1b', '[', 'J']
}

/// The lines of a frame, each followed by a newline.
pub open spec fn lines_text(lines: Seq<Seq<char>>) -> Seq<char>
    decreases lines.len(),
{
    if lines.len() == 0 {
        Seq::empty()
    } else {
        lines_text(lines.drop_last()) + lines.last().push('\n')
    }
}

pub struct Screen {
    /// Whether escapes are honoured. Without them, frames scroll.
    redraws: bool,
}

impl Screen {
    /// A screen, given whether the console agreed to interpret escapes.
    pub fn new(redraws: bool) -> (s: Screen)
        ensures
            s.redraws() == redraws,
    {
        Screen { redraws }
    }

    pub closed spec fn redraws(&self) -> bool {
        self.redraws
    }

    /// The text that replaces the screen with these lines: the home-and-clear
    /// escape when escapes are honoured, then every line with its newline.
    pub fn text(&self, lines: &Vec<String>) -> (out: String)
        ensures
            out@ == (if self.redraws() {
                home_and_clear()
            } else {
                Seq::empty()
            }) + lines_text(lines@.map_values(|l: String| l@)),
    {
        let mut out = String::new();
        if self.redraws {
            out.append("\x1b[H\x1b[J");
            proof {
                reveal_strlit("\x1b[H\x1b[J");
                assert(out@ =~= home_and_clear());
            }
        }
        let ghost start = out@;
        let ghost views = lines@.map_values(|l: String| l@);
        let mut i: usize = 0;
        while i < lines.len()
            invariant
                i <= lines@.len(),
                views == lines@.map_values(|l: String| l@),
                out@ == start + lines_text(views.take(i as int)),
            decreases lines@.len() - i,
        {
            out.append(lines[i].as_str());
            out.append("\n");
            proof {
                reveal_strlit("\n");
                assert(views.take(i + 1).drop_last() =~= views.take(i as int));
                assert(out@ =~= start + lines_text(views.take(i + 1)));
            }
            i += 1;
        }
        proof {
            assert(views.take(i as int) =~= views);
        }
        out
    }
}

} // verus!
