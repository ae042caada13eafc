//! What another process reports about itself, decoded.
//!
//! Windows fills fixed arrays of UTF-16 units with NUL-terminated names and
//! leaves whatever was in the buffer after the terminator.

use vstd::prelude::*;

verus! {

/// One loaded module inside the target process.
#[derive(Clone, Copy, Debug, PartialEq, Eq, Structural)]
pub struct Module {
    pub base: usize,
    pub size: u32,
}

/// Whether a UTF-16 unit is half of a surrogate pair.
pub open spec fn is_surrogate(unit: u16) -> bool {
    0xD800 <= unit <= 0xDFFF
}

/// Whether a UTF-16 unit is the first half of a surrogate pair.
pub open spec fn is_high_surrogate(unit: u16) -> bool {
    0xD800 <= unit <= 0xDBFF
}

/// Whether a UTF-16 unit is the second half of a surrogate pair.
pub open spec fn is_low_surrogate(unit: u16) -> bool {
    0xDC00 <= unit <= 0xDFFF
}

/// The character a surrogate pair encodes.
pub open spec fn pair_char(high: u16, low: u16) -> char {
    (0x1_0000 + (high - 0xD800) * 0x400 + (low - 0xDC00)) as char
}

/// Lossy UTF-16 decoding: a unit outside the surrogate range is the
/// character of that value, a high surrogate followed by a low one is the
/// character the pair encodes, and any other surrogate becomes U+FFFD on its
/// own, decoding going on with the unit after it.
pub open spec fn utf16_lossy(units: Seq<u16>) -> Seq<char>
    decreases units.len(),
{
    if units.len() == 0 {
        Seq::empty()
    } else if !is_surrogate(units[0]) {
        seq![units[0] as char] + utf16_lossy(units.drop_first())
    } else if is_high_surrogate(units[0]) && units.len() >= 2 && is_low_surrogate(units[1]) {
        seq![pair_char(units[0], units[1])] + utf16_lossy(units.skip(2))
    } else {
        seq!['\u{FFFD}'] + utf16_lossy(units.drop_first())
    }
}

/// `String::from_utf16_lossy`: decodes UTF-16, putting U+FFFD in place of
/// every unpaired surrogate, as [`utf16_lossy`] states.
#[verifier::external_body]
fn from_utf16_lossy(units: &[u16]) -> (s: String)
    ensures
        s@ == utf16_lossy(units@),
{
    String::from_utf16_lossy(units)
}

/// Units outside the surrogate range decode one for one, each to the
/// character with its value.
pub proof fn lemma_plain_units_decode_to_themselves(units: Seq<u16>)
    requires
        forall|k: int| 0 <= k < units.len() ==> !is_surrogate(#[trigger] units[k]),
    ensures
        utf16_lossy(units) == units.map_values(|u: u16| u as char),
    decreases units.len(),
{
    if units.len() > 0 {
        assert forall|k: int| 0 <= k < units.drop_first().len() implies !is_surrogate(
            #[trigger] units.drop_first()[k],
        ) by {
            assert(units.drop_first()[k] == units[k + 1]);
        }
        lemma_plain_units_decode_to_themselves(units.drop_first());
        assert(utf16_lossy(units) =~= units.map_values(|u: u16| u as char));
    }
}

/// Where the name in a buffer ends: at the first NUL at or after `i`, or at
/// the end of the buffer when there is none.
pub open spec fn terminator_from(wide: Seq<u16>, i: int) -> int
    decreases wide.len() - i,
{
    if i >= wide.len() || i < 0 {
        wide.len() as int
    } else if wide[i] == 0 {
        i
    } else {
        terminator_from(wide, i + 1)
    }
}

/// The units of the name a buffer holds: everything before its terminator.
pub open spec fn name_units(wide: Seq<u16>) -> Seq<u16> {
    wide.take(terminator_from(wide, 0))
}

proof fn lemma_terminator_bounds(wide: Seq<u16>, i: int)
    requires
        0 <= i <= wide.len(),
    ensures
        i <= terminator_from(wide, i) <= wide.len(),
        forall|k: int| i <= k < terminator_from(wide, i) ==> #[trigger] wide[k] != 0,
        terminator_from(wide, i) < wide.len() ==> wide[terminator_from(wide, i)] == 0,
    decreases wide.len() - i,
{
    if i < wide.len() && wide[i] != 0 {
        lemma_terminator_bounds(wide, i + 1);
    }
}

/// A UTF-16 fixed array as Windows fills it: NUL-terminated, rest is garbage.
pub fn wide_to_string(wide: &[u16]) -> (s: String)
    ensures
        s@ == utf16_lossy(name_units(wide@)),
        (forall|k: int|
            0 <= k < name_units(wide@).len() ==> !is_surrogate(#[trigger] name_units(wide@)[k]))
            ==> s@ == name_units(wide@).map_values(|u: u16| u as char),
{
    let mut units: Vec<u16> = Vec::new();
    let mut i: usize = 0;
    while i < wide.len() && wide[i] != 0
        invariant
            i <= wide@.len(),
            terminator_from(wide@, 0) == terminator_from(wide@, i as int),
            units@ == wide@.take(i as int),
        decreases wide@.len() - i,
    {
        units.push(wide[i]);
        i += 1;
        proof {
            assert(units@ =~= wide@.take(i as int));
        }
    }
    proof {
        assert(terminator_from(wide@, i as int) == i);
        if forall|k: int|
            0 <= k < name_units(wide@).len() ==> !is_surrogate(#[trigger] name_units(wide@)[k]) {
            lemma_plain_units_decode_to_themselves(name_units(wide@));
        }
    }
    from_utf16_lossy(units.as_slice())
}

/// A name is everything before the first NUL: none of its units is a NUL,
/// and anything the buffer holds after that NUL never reaches it.
pub proof fn lemma_name_stops_at_the_terminator(wide: Seq<u16>, garbage: Seq<u16>)
    ensures
        forall|k: int| 0 <= k < name_units(wide).len() ==> #[trigger] name_units(wide)[k] != 0,
        name_units(wide).len() <= wide.len(),
        terminator_from(wide, 0) < wide.len() ==> name_units(wide + garbage) == name_units(wide),
{
    lemma_terminator_bounds(wide, 0);
    if terminator_from(wide, 0) < wide.len() {
        lemma_terminator_prefix(wide, garbage, 0);
        assert(name_units(wide + garbage) =~= name_units(wide));
    }
}

proof fn lemma_terminator_prefix(wide: Seq<u16>, garbage: Seq<u16>, i: int)
    requires
        0 <= i <= terminator_from(wide, i),
        terminator_from(wide, i) < wide.len(),
    ensures
        terminator_from(wide + garbage, i) == terminator_from(wide, i),
    decreases wide.len() - i,
{
    if wide[i] != 0 {
        lemma_terminator_bounds(wide, i + 1);
        lemma_terminator_prefix(wide, garbage, i + 1);
    }
}

/// A buffer with no NUL at all is a name in full.
pub proof fn lemma_unterminated_buffer_is_whole(wide: Seq<u16>)
    requires
        forall|k: int| 0 <= k < wide.len() ==> #[trigger] wide[k] != 0,
    ensures
        name_units(wide) == wide,
{
    lemma_terminator_bounds(wide, 0);
    if terminator_from(wide, 0) < wide.len() {
        assert(wide[terminator_from(wide, 0)] == 0);
    }
    assert(name_units(wide) =~= wide);
}

/// The characters of a string, in order.
pub(crate) fn chars_of(s: &str) -> (v: Vec<char>)
    ensures
        v@ == s@,
{
    let mut v: Vec<char> = Vec::new();
    for c in it: s.chars()
        invariant
            it.seq() == s@,
            v@ == it.seq().take(it.index() as int),
    {
        v.push(c);
        proof {
            assert(v@ =~= it.seq().take(it.index() + 1));
        }
    }
    proof {
        assert(v@ =~= s@);
    }
    v
}

/// A character with ASCII upper case folded to lower case, and every other
/// character unchanged.
pub open spec fn ascii_lower(c: char) -> char {
    if 'A' <= c && c <= 'Z' {
        ((c as u32) + 32) as char
    } else {
        c
    }
}

/// Whether two texts are the same once ASCII letters are compared without
/// regard to case, as `str::eq_ignore_ascii_case` compares them.
pub open spec fn same_ignoring_ascii_case(a: Seq<char>, b: Seq<char>) -> bool {
    &&& a.len() == b.len()
    &&& forall|i: int| 0 <= i < a.len() ==> ascii_lower(#[trigger] a[i]) == ascii_lower(b[i])
}

fn ascii_lower_char(c: char) -> (d: char)
    ensures
        d == ascii_lower(c),
{
    if 'A' <= c && c <= 'Z' {
        ((c as u32 + 32) as u8) as char
    } else {
        c
    }
}

/// Whether the name Windows filled a buffer with is `name`, ignoring ASCII
/// case: how a process or a module is found by its file name.
pub fn names_match(wide: &[u16], name: &str) -> (res: bool)
    ensures
        res == same_ignoring_ascii_case(utf16_lossy(name_units(wide@)), name@),
{
    let found = wide_to_string(wide);
    let a = chars_of(found.as_str());
    let b = chars_of(name);
    if a.len() != b.len() {
        return false;
    }
    let mut i: usize = 0;
    while i < a.len()
        invariant
            i <= a@.len(),
            a@.len() == b@.len(),
            a@ == utf16_lossy(name_units(wide@)),
            b@ == name@,
            forall|k: int| 0 <= k < i ==> ascii_lower(#[trigger] a@[k]) == ascii_lower(b@[k]),
        decreases a@.len() - i,
    {
        if ascii_lower_char(a[i]) != ascii_lower_char(b[i]) {
            proof {
                assert(ascii_lower(a@[i as int]) != ascii_lower(b@[i as int]));
            }
            return false;
        }
        i += 1;
    }
    true
}

/// A character with ASCII lower case raised to upper case.
pub open spec fn ascii_upper(c: char) -> char {
    if 'a' <= c && c <= 'z' {
        ((c as u32) - 32) as char
    } else {
        c
    }
}

/// Folding touches the 26 ASCII letters and nothing else: every upper-case
/// letter folds to its lower case, a lower-case letter stays as it is, and
/// every other character is left alone.
pub proof fn lemma_ascii_case_folds_letters_only(c: char)
    ensures
        'a' <= c <= 'z' ==> ascii_lower(c) == c && ascii_lower(ascii_upper(c)) == c,
        'A' <= c <= 'Z' ==> ascii_lower(c) != c && ascii_upper(ascii_lower(c)) == c,
        !('A' <= c <= 'Z') ==> ascii_lower(c) == c,
{
}

/// A name matches its own ASCII upper-cased form, both ways round.
pub proof fn lemma_names_match_their_own_case_forms(a: Seq<char>)
    ensures
        same_ignoring_ascii_case(a, a.map_values(|c: char| ascii_upper(c))),
        same_ignoring_ascii_case(a.map_values(|c: char| ascii_upper(c)), a),
{
    assert forall|i: int| 0 <= i < a.len() implies ascii_lower(#[trigger] a[i]) == ascii_lower(
        a.map_values(|c: char| ascii_upper(c))[i],
    ) by {
        lemma_ascii_case_folds_letters_only(a[i]);
    }
}

/// Matching forgives ASCII case and nothing else: names that match have the
/// same length, and each pair of characters is equal or the same ASCII
/// letter in the other case.
pub proof fn lemma_matching_forgives_only_ascii_case(a: Seq<char>, b: Seq<char>)
    ensures
        same_ignoring_ascii_case(a, b) ==> a.len() == b.len() && forall|i: int|
            0 <= i < a.len() ==> #[trigger] a[i] == b[i] || ascii_upper(a[i]) == b[i] || a[i]
                == ascii_upper(b[i]),
{
    if same_ignoring_ascii_case(a, b) {
        assert forall|i: int| 0 <= i < a.len() implies #[trigger] a[i] == b[i] || ascii_upper(a[i])
            == b[i] || a[i] == ascii_upper(b[i]) by {
            assert(ascii_lower(a[i]) == ascii_lower(b[i]));
        }
    }
}

/// A surrogate pair decodes to a supplementary character, and the pair is
/// recovered from it: the high unit carries the upper ten bits above
/// `0x10000`, the low unit the lower ten.
pub proof fn lemma_pairs_decode_reversibly(high: u16, low: u16)
    requires
        is_high_surrogate(high),
        is_low_surrogate(low),
    ensures
        0x1_0000 <= pair_char(high, low) as int <= 0x10_FFFF,
        (pair_char(high, low) as int - 0x1_0000) / 0x400 + 0xD800 == high,
        (pair_char(high, low) as int - 0x1_0000) % 0x400 + 0xDC00 == low,
{
}

} // verus!
