//! The text a run's log is made of.
//!
//! Pawns are addresses. Printing one in decimal and its neighbour in hex is
//! how a log hides that they are the same player, so every pawn is printed
//! the one way.
//!
//! A message recorded in the file becomes one entry per line. Blank lines and
//! the padding newlines that space out console output are dropped: they are
//! layout for a screen, and in a file they only break the one-entry-per-line
//! shape. Trailing whitespace goes, leading whitespace stays, because the
//! breakdown nests sub-stages under the stage they belong to.

use vstd::prelude::*;

use crate::process::chars_of;

verus! {

/// The upper-case hexadecimal digit for a value below sixteen.
pub open spec fn hex_digit(d: int) -> char {
    if d < 10 {
        (48 + d) as char
    } else {
        (55 + d) as char
    }
}

/// A number in upper-case hexadecimal, without leading zeros.
pub open spec fn hex_upper(n: nat) -> Seq<char>
    decreases n,
{
    if n < 16 {
        seq![hex_digit(n as int)]
    } else {
        hex_upper(n / 16).push(hex_digit((n % 16) as int))
    }
}

/// How a pawn, or the lack of one, is written in the log.
pub open spec fn pawn_text(value: Option<usize>) -> Seq<char> {
    match value {
        None => seq!['n', 'o', 'n', 'e'],
        Some(pawn) => seq!['0', 'x'] + hex_upper(pawn as nat),
    }
}

/// `String::push`: appends one character to the end of a string.
#[verifier::external_body]
fn push_char(s: &mut String, c: char)
    ensures
        final(s)@ == old(s)@.push(c),
{
    s.push(c);
}

fn hex_digit_char(d: usize) -> (c: char)
    requires
        d < 16,
    ensures
        c == hex_digit(d as int),
{
    if d < 10 {
        ((48 + d) as u8) as char
    } else {
        ((55 + d) as u8) as char
    }
}

fn push_hex(s: &mut String, n: usize)
    ensures
        final(s)@ == old(s)@ + hex_upper(n as nat),
    decreases n,
{
    if n >= 16 {
        push_hex(s, n / 16);
    }
    let c = hex_digit_char(n % 16);
    push_char(s, c);
    proof {
        if n >= 16 {
            assert(hex_upper(n as nat) == hex_upper((n / 16) as nat).push(hex_digit((n % 16) as int)));
        }
    }
}

/// Pawns are printed in hex with a `0x` prefix; no pawn is printed `none`.
pub fn pawn(value: Option<usize>) -> (s: String)
    ensures
        s@ == pawn_text(value),
{
    match value {
        None => {
            let s = "none".to_owned();
            proof {
                reveal_strlit("none");
            }
            s
        },
        Some(p) => {
            let mut s = String::new();
            push_char(&mut s, '0');
            push_char(&mut s, 'x');
            push_hex(&mut s, p);
            s
        },
    }
}

/// Every digit of a printed pawn is an upper-case hexadecimal digit, so a
/// pawn can never print as something that looks like a decimal number with
/// a prefix glued on, nor as lower-case text beside an upper-case neighbour.
pub proof fn lemma_hex_digits_are_upper_case(n: nat)
    ensures
        hex_upper(n).len() >= 1,
        forall|i: int|
            0 <= i < hex_upper(n).len() ==> {
                let c = #[trigger] hex_upper(n)[i];
                ('0' <= c && c <= '9') || ('A' <= c && c <= 'F')
            },
    decreases n,
{
    if n >= 16 {
        lemma_hex_digits_are_upper_case(n / 16);
    }
}

/// Whether a character has the Unicode `White_Space` property.
pub open spec fn unicode_white_space(c: char) -> bool {
    ||| '\u{9}' <= c <= '\u{D}'
    ||| c == ' '
    ||| c == '\u{85}'
    ||| c == '\u{A0}'
    ||| c == '\u{1680}'
    ||| '\u{2000}' <= c <= '\u{200A}'
    ||| c == '\u{2028}'
    ||| c == '\u{2029}'
    ||| c == '\u{202F}'
    ||| c == '\u{205F}'
    ||| c == '\u{3000}'
}

/// Whether a character has the Unicode `White_Space` property, the rule
/// `char::is_whitespace` follows.
pub fn is_whitespace(c: char) -> (b: bool)
    ensures
        b == unicode_white_space(c),
{
    ('\u{9}' <= c && c <= '\u{D}') || c == ' ' || c == '\u{85}' || c == '\u{A0}' || c
        == '\u{1680}' || ('\u{2000}' <= c && c <= '\u{200A}') || c == '\u{2028}' || c
        == '\u{2029}' || c == '\u{202F}' || c == '\u{205F}' || c == '\u{3000}'
}

/// The pieces of a text between its newlines: always one more than the
/// number of newlines, the last possibly empty.
pub open spec fn pieces(s: Seq<char>) -> Seq<Seq<char>>
    decreases s.len(),
{
    if s.len() == 0 {
        seq![Seq::empty()]
    } else {
        let p = pieces(s.drop_last());
        if s.last() == '\n' {
            p.push(Seq::empty())
        } else {
            p.update(p.len() - 1, p.last().push(s.last()))
        }
    }
}

/// A line without its trailing whitespace.
pub open spec fn trim_end(line: Seq<char>) -> Seq<char>
    decreases line.len(),
{
    if line.len() > 0 && unicode_white_space(line.last()) {
        trim_end(line.drop_last())
    } else {
        line
    }
}

pub open spec fn not_blank(line: Seq<char>) -> bool {
    line.len() > 0
}

/// The entries a message becomes in the file: every line with its trailing
/// whitespace removed, in order, leaving out the lines that were blank.
pub open spec fn log_entries(message: Seq<char>) -> Seq<Seq<char>> {
    pieces(message).map_values(|l: Seq<char>| trim_end(l)).filter(|l: Seq<char>| not_blank(l))
}

proof fn lemma_pieces_nonempty(s: Seq<char>)
    ensures
        pieces(s).len() >= 1,
    decreases s.len(),
{
    if s.len() > 0 {
        lemma_pieces_nonempty(s.drop_last());
    }
}

/// The trimmed line, as a string, and how many characters it kept.
fn trimmed(line: &Vec<char>) -> (res: (String, usize))
    ensures
        res.0@ == trim_end(line@),
        res.1 == res.0@.len(),
{
    let mut j: usize = line.len();
    proof {
        assert(line@.take(j as int) =~= line@);
    }
    while j > 0 && is_whitespace(line[j - 1])
        invariant
            j <= line@.len(),
            trim_end(line@) == trim_end(line@.take(j as int)),
        decreases j,
    {
        proof {
            assert(line@.take(j as int).drop_last() =~= line@.take(j - 1));
        }
        j -= 1;
    }
    proof {
        if j == 0 {
            assert(line@.take(0) =~= Seq::<char>::empty());
        }
    }
    let mut s = String::new();
    let mut k: usize = 0;
    while k < j
        invariant
            k <= j <= line@.len(),
            s@ == line@.take(k as int),
        decreases j - k,
    {
        push_char(&mut s, line[k]);
        k += 1;
        proof {
            assert(s@ =~= line@.take(k as int));
        }
    }
    (s, j)
}

proof fn lemma_entries_step(p: Seq<Seq<char>>, line: Seq<char>)
    ensures
        p.push(line).map_values(|l: Seq<char>| trim_end(l)).filter(|l: Seq<char>| not_blank(l))
            == (if not_blank(trim_end(line)) {
            p.map_values(|l: Seq<char>| trim_end(l)).filter(|l: Seq<char>| not_blank(l)).push(
                trim_end(line),
            )
        } else {
            p.map_values(|l: Seq<char>| trim_end(l)).filter(|l: Seq<char>| not_blank(l))
        }),
{
    let f = |l: Seq<char>| trim_end(l);
    let q = |l: Seq<char>| not_blank(l);
    assert(p.push(line).map_values(f).drop_last() =~= p.map_values(f));
    reveal_with_fuel(Seq::filter, 1);
}

/// The entries a message becomes in the log file, one per line, in order.
pub fn entries(message: &str) -> (res: Vec<String>)
    ensures
        res@.map_values(|s: String| s@) == log_entries(message@),
{
    let text = chars_of(message);
    let mut done: Vec<String> = Vec::new();
    let mut cur: Vec<char> = Vec::new();
    let mut i: usize = 0;
    proof {
        assert(text@.take(0) =~= Seq::<char>::empty());
        assert(pieces(text@.take(0)).drop_last() =~= Seq::<Seq<char>>::empty());
        reveal_with_fuel(Seq::filter, 1);
        assert(done@.map_values(|s: String| s@) =~= pieces(text@.take(0)).drop_last().map_values(
            |l: Seq<char>| trim_end(l),
        ).filter(|l: Seq<char>| not_blank(l)));
    }
    while i < text.len()
        invariant
            i <= text@.len(),
            cur@ == pieces(text@.take(i as int)).last(),
            done@.map_values(|s: String| s@) == pieces(text@.take(i as int)).drop_last().map_values(
                |l: Seq<char>| trim_end(l),
            ).filter(|l: Seq<char>| not_blank(l)),
        decreases text@.len() - i,
    {
        let c = text[i];
        let ghost before = pieces(text@.take(i as int));
        proof {
            lemma_pieces_nonempty(text@.take(i as int));
            assert(text@.take(i + 1).drop_last() =~= text@.take(i as int));
            assert(before =~= before.drop_last().push(before.last()));
        }
        if c == '\n' {
            let (line, kept) = trimmed(&cur);
            proof {
                lemma_entries_step(before.drop_last(), before.last());
                assert(pieces(text@.take(i + 1)).drop_last() =~= before);
            }
            if kept > 0 {
                let ghost old_done = done@;
                done.push(line);
                proof {
                    assert(done@.map_values(|s: String| s@) =~= old_done.map_values(
                        |s: String| s@,
                    ).push(line@));
                }
            }
            cur = Vec::new();
            proof {
                assert(cur@ =~= pieces(text@.take(i + 1)).last());
            }
        } else {
            cur.push(c);
            proof {
                assert(pieces(text@.take(i + 1)).drop_last() =~= before.drop_last());
            }
        }
        i += 1;
    }
    proof {
        assert(text@.take(i as int) =~= message@);
        lemma_pieces_nonempty(message@);
        let p = pieces(message@);
        assert(p =~= p.drop_last().push(p.last()));
        lemma_entries_step(p.drop_last(), p.last());
    }
    let (line, kept) = trimmed(&cur);
    if kept > 0 {
        let ghost old_done = done@;
        done.push(line);
        proof {
            assert(done@.map_values(|s: String| s@) =~= old_done.map_values(|s: String| s@).push(
                line@,
            ));
        }
    }
    done
}

proof fn lemma_trim_end_shape(line: Seq<char>)
    ensures
        trim_end(line).len() <= line.len(),
        trim_end(line) == line.take(trim_end(line).len() as int),
        trim_end(line).len() > 0 ==> !unicode_white_space(trim_end(line).last()),
    decreases line.len(),
{
    if line.len() > 0 && unicode_white_space(line.last()) {
        lemma_trim_end_shape(line.drop_last());
        assert(line.drop_last().take(trim_end(line).len() as int) =~= line.take(
            trim_end(line).len() as int,
        ));
    } else {
        assert(line.take(line.len() as int) =~= line);
    }
}

proof fn lemma_pieces_have_no_newline(s: Seq<char>)
    ensures
        forall|k: int, j: int|
            0 <= k < pieces(s).len() && 0 <= j < pieces(s)[k].len() ==> #[trigger] pieces(s)[k][j]
                != '\n',
    decreases s.len(),
{
    if s.len() > 0 {
        lemma_pieces_have_no_newline(s.drop_last());
        lemma_pieces_nonempty(s.drop_last());
    }
}

/// Every entry is one line of the message: none is empty, none ends in
/// whitespace, none holds a newline, and each is a prefix of one of the
/// message's lines, so leading whitespace is kept as it was.
pub proof fn lemma_entries_are_trimmed_lines(message: Seq<char>)
    ensures
        forall|k: int|
            0 <= k < log_entries(message).len() ==> {
                let e = #[trigger] log_entries(message)[k];
                &&& e.len() > 0
                &&& !unicode_white_space(e.last())
                &&& forall|j: int| 0 <= j < e.len() ==> e[j] != '\n'
                &&& exists|m: int|
                    0 <= m < pieces(message).len() && e == pieces(message)[m].take(e.len() as int)
            },
{
    let p = pieces(message);
    let f = |l: Seq<char>| trim_end(l);
    let q = |l: Seq<char>| not_blank(l);
    let mapped = p.map_values(f);
    lemma_pieces_have_no_newline(message);
    assert forall|k: int| 0 <= k < log_entries(message).len() implies {
        let e = #[trigger] log_entries(message)[k];
        &&& e.len() > 0
        &&& !unicode_white_space(e.last())
        &&& forall|j: int| 0 <= j < e.len() ==> e[j] != '\n'
        &&& exists|m: int| 0 <= m < p.len() && e == p[m].take(e.len() as int)
    } by {
        let e = log_entries(message)[k];
        broadcast use vstd::seq_lib::group_filter_ensures;

        mapped.lemma_filter_contains_rev(q, e);
        assert(log_entries(message).contains(e));
        let m = choose|m: int| 0 <= m < mapped.len() && mapped[m] == e;
        lemma_trim_end_shape(p[m]);
        assert(e == p[m].take(e.len() as int));
        assert forall|j: int| 0 <= j < e.len() implies e[j] != '\n' by {
            assert(e[j] == p[m][j]);
        }
    }
}

/// The value of a hexadecimal digit character, read the usual way.
pub open spec fn digit_value(c: char) -> int {
    if '0' <= c && c <= '9' {
        c as int - '0' as int
    } else {
        c as int - 'A' as int + 10
    }
}

/// A sequence of hexadecimal digits read back as a number, most significant
/// digit first.
pub open spec fn read_hex(digits: Seq<char>) -> int
    decreases digits.len(),
{
    if digits.len() == 0 {
        0
    } else {
        read_hex(digits.drop_last()) * 16 + digit_value(digits.last())
    }
}

/// The sixteen digits, in order.
pub open spec fn hex_alphabet() -> Seq<char> {
    seq!['0', '1', '2', '3', '4', '5', '6', '7', '8', '9', 'A', 'B', 'C', 'D', 'E', 'F']
}

/// The digit for `d` is the `d`-th of `0123456789ABCDEF`, so distinct values
/// print as distinct digits and each digit reads back as its value.
pub proof fn lemma_hex_digit_is_the_alphabet(d: int)
    requires
        0 <= d < 16,
    ensures
        hex_digit(d) == hex_alphabet()[d],
        digit_value(hex_digit(d)) == d,
{
    if d == 0 {
        assert(hex_alphabet()[0] == hex_digit(0));
    } else if d == 1 {
        assert(hex_alphabet()[1] == hex_digit(1));
    } else if d == 2 {
        assert(hex_alphabet()[2] == hex_digit(2));
    } else if d == 3 {
        assert(hex_alphabet()[3] == hex_digit(3));
    } else if d == 4 {
        assert(hex_alphabet()[4] == hex_digit(4));
    } else if d == 5 {
        assert(hex_alphabet()[5] == hex_digit(5));
    } else if d == 6 {
        assert(hex_alphabet()[6] == hex_digit(6));
    } else if d == 7 {
        assert(hex_alphabet()[7] == hex_digit(7));
    } else if d == 8 {
        assert(hex_alphabet()[8] == hex_digit(8));
    } else if d == 9 {
        assert(hex_alphabet()[9] == hex_digit(9));
    } else if d == 10 {
        assert(hex_alphabet()[10] == hex_digit(10));
    } else if d == 11 {
        assert(hex_alphabet()[11] == hex_digit(11));
    } else if d == 12 {
        assert(hex_alphabet()[12] == hex_digit(12));
    } else if d == 13 {
        assert(hex_alphabet()[13] == hex_digit(13));
    } else if d == 14 {
        assert(hex_alphabet()[14] == hex_digit(14));
    } else if d == 15 {
        assert(hex_alphabet()[15] == hex_digit(15));
    }
}

/// A printed pawn reads back as the address it was printed from: the digits
/// after `0x` are the number in base sixteen, and there is no leading zero
/// except for zero itself.
pub proof fn lemma_pawn_reads_back(n: nat)
    ensures
        read_hex(hex_upper(n)) == n,
        hex_upper(n).len() > 1 <==> n >= 16,
        n >= 16 ==> hex_upper(n)[0] != '0',
    decreases n,
{
    lemma_hex_digits_are_upper_case(n);
    if n < 16 {
        lemma_hex_digit_is_the_alphabet(n as int);
        assert(hex_upper(n).drop_last() =~= Seq::<char>::empty());
        assert(read_hex(Seq::<char>::empty()) == 0);
        assert(hex_upper(n).last() == hex_digit(n as int));
        assert(read_hex(hex_upper(n)) == read_hex(hex_upper(n).drop_last()) * 16 + digit_value(
            hex_upper(n).last(),
        ));
    } else {
        lemma_pawn_reads_back(n / 16);
        lemma_hex_digits_are_upper_case(n / 16);
        lemma_hex_digit_is_the_alphabet((n % 16) as int);
        assert(hex_upper(n).drop_last() =~= hex_upper(n / 16));
        assert(hex_upper(n).last() == hex_digit((n % 16) as int));
        assert(read_hex(hex_upper(n)) == read_hex(hex_upper(n / 16)) * 16 + digit_value(
            hex_digit((n % 16) as int),
        ));
        assert(n == (n / 16) * 16 + n % 16);
        assert(hex_upper(n)[0] == hex_upper(n / 16)[0]);
        if n / 16 < 16 {
            lemma_hex_digit_is_the_alphabet((n / 16) as int);
            assert(digit_value('0') == 0);
        }
    }
}

/// Trimming takes off trailing whitespace and nothing else: a line whose
/// last character is not whitespace (or an empty one) is kept as it is, and
/// whatever is taken off a line is whitespace.
pub proof fn lemma_trim_end_removes_only_whitespace(line: Seq<char>)
    ensures
        line.len() == 0 || !unicode_white_space(line.last()) ==> trim_end(line) == line,
        trim_end(line).len() <= line.len(),
        trim_end(line) == line.take(trim_end(line).len() as int),
        forall|k: int| trim_end(line).len() <= k < line.len() ==> unicode_white_space(#[trigger] line[k]),
        trim_end(line).len() == 0 || !unicode_white_space(trim_end(line).last()),
    decreases line.len(),
{
    lemma_trim_end_shape(line);
    if line.len() > 0 && unicode_white_space(line.last()) {
        lemma_trim_end_removes_only_whitespace(line.drop_last());
        assert forall|k: int| trim_end(line).len() <= k < line.len() implies unicode_white_space(
            #[trigger] line[k],
        ) by {
            if k < line.len() - 1 {
                assert(line.drop_last()[k] == line[k]);
            }
        }
    }
}

/// A message of one line that does not end in whitespace is logged as that
/// line, unchanged.
pub proof fn lemma_a_plain_line_is_logged_unchanged(line: Seq<char>)
    requires
        line.len() > 0,
        !unicode_white_space(line.last()),
        forall|k: int| 0 <= k < line.len() ==> #[trigger] line[k] != '\n',
    ensures
        log_entries(line) == seq![line],
{
    lemma_pieces_of_a_line(line);
    lemma_trim_end_removes_only_whitespace(line);
    let mapped = pieces(line).map_values(|l: Seq<char>| trim_end(l));
    assert(mapped =~= seq![line]);
    assert(mapped.drop_last() =~= Seq::<Seq<char>>::empty());
    reveal_with_fuel(Seq::filter, 2);
    assert(log_entries(line) =~= seq![line]);
}

proof fn lemma_pieces_of_a_line(line: Seq<char>)
    requires
        forall|k: int| 0 <= k < line.len() ==> #[trigger] line[k] != '\n',
    ensures
        pieces(line) == seq![line],
    decreases line.len(),
{
    if line.len() > 0 {
        assert forall|k: int| 0 <= k < line.drop_last().len() implies #[trigger] line.drop_last()[k] != '\n' by {
            assert(line.drop_last()[k] == line[k]);
        }
        lemma_pieces_of_a_line(line.drop_last());
        assert(line.last() == line[line.len() - 1]);
        assert(pieces(line) =~= seq![line.drop_last().push(line.last())]);
        assert(line.drop_last().push(line.last()) =~= line);
    } else {
        assert(line =~= Seq::<char>::empty());
        assert(pieces(line) =~= seq![line]);
    }
}

} // verus!
