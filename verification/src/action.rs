//! Player actions, the coordinates they address, and the textual command
//! grammar: an optional run count (digits, or a bare `+` for the maximum),
//! a `+`, then two coordinate characters.

use vstd::prelude::*;
use vstd::string::StrSliceExecFns;

verus! {

/// A move source: a cascade or a cell. A foundation is never a source.
#[derive(Clone, Copy, Debug)]
pub enum FromCoordinate {
    Cascade(u8),
    Cell(u8),
}

/// A move destination: a cascade, a cell or a foundation.
#[derive(Clone, Copy, Debug)]
pub enum ToCoordinate {
    Cascade(u8),
    Cell(u8),
    Foundation(u8),
}

/// True when source and destination name the same slot.
pub open spec fn same_slot(a: FromCoordinate, b: ToCoordinate) -> bool {
    match (a, b) {
        (FromCoordinate::Cascade(x), ToCoordinate::Cascade(y)) => x == y,
        (FromCoordinate::Cell(x), ToCoordinate::Cell(y)) => x == y,
        _ => false,
    }
}

impl PartialEq for FromCoordinate {
    fn eq(&self, other: &Self) -> (r: bool) {
        match (self, other) {
            (FromCoordinate::Cascade(a), FromCoordinate::Cascade(b)) => a == b,
            (FromCoordinate::Cell(a), FromCoordinate::Cell(b)) => a == b,
            _ => false,
        }
    }
}

impl vstd::std_specs::cmp::PartialEqSpecImpl for FromCoordinate {
    open spec fn obeys_eq_spec() -> bool {
        true
    }

    open spec fn eq_spec(&self, other: &Self) -> bool {
        *self == *other
    }
}

impl PartialEq for ToCoordinate {
    fn eq(&self, other: &Self) -> (r: bool) {
        match (self, other) {
            (ToCoordinate::Cascade(a), ToCoordinate::Cascade(b)) => a == b,
            (ToCoordinate::Cell(a), ToCoordinate::Cell(b)) => a == b,
            (ToCoordinate::Foundation(a), ToCoordinate::Foundation(b)) => a == b,
            _ => false,
        }
    }
}

impl vstd::std_specs::cmp::PartialEqSpecImpl for ToCoordinate {
    open spec fn obeys_eq_spec() -> bool {
        true
    }

    open spec fn eq_spec(&self, other: &Self) -> bool {
        *self == *other
    }
}

impl PartialEq<ToCoordinate> for FromCoordinate {
    fn eq(&self, other: &ToCoordinate) -> (r: bool) {
        match (self, other) {
            (FromCoordinate::Cascade(a), ToCoordinate::Cascade(b)) => a == b,
            (FromCoordinate::Cell(a), ToCoordinate::Cell(b)) => a == b,
            _ => false,
        }
    }
}

impl vstd::std_specs::cmp::PartialEqSpecImpl<ToCoordinate> for FromCoordinate {
    open spec fn obeys_eq_spec() -> bool {
        true
    }

    open spec fn eq_spec(&self, other: &ToCoordinate) -> bool {
        same_slot(*self, *other)
    }
}

impl PartialEq<FromCoordinate> for ToCoordinate {
    fn eq(&self, other: &FromCoordinate) -> (r: bool) {
        match (self, other) {
            (ToCoordinate::Cascade(a), FromCoordinate::Cascade(b)) => a == b,
            (ToCoordinate::Cell(a), FromCoordinate::Cell(b)) => a == b,
            _ => false,
        }
    }
}

impl vstd::std_specs::cmp::PartialEqSpecImpl<FromCoordinate> for ToCoordinate {
    open spec fn obeys_eq_spec() -> bool {
        true
    }

    open spec fn eq_spec(&self, other: &FromCoordinate) -> bool {
        same_slot(*other, *self)
    }
}

/// What a player asks the game to do: take back the last move, or move
/// cards from one slot to another, with an optional explicit run length.
#[derive(Clone, Copy, Debug, PartialEq)]
pub enum Action {
    Undo,
    MoveCard { from: FromCoordinate, to: ToCoordinate, count: Option<u8> },
}

/// True when `c` has the Unicode white-space property, the set `str::trim`
/// removes.
pub open spec fn is_space(c: char) -> bool {
    let u = c as u32;
    ||| u == 0x9
    ||| u == 0xA
    ||| u == 0xB
    ||| u == 0xC
    ||| u == 0xD
    ||| u == 0x20
    ||| u == 0x85
    ||| u == 0xA0
    ||| u == 0x1680
    ||| (0x2000 <= u && u <= 0x200A)
    ||| u == 0x2028
    ||| u == 0x2029
    ||| u == 0x202F
    ||| u == 0x205F
    ||| u == 0x3000
}

fn char_is_space(c: char) -> (r: bool)
    ensures
        r == is_space(c),
{
    let u = c as u32;
    u == 0x9 || u == 0xA || u == 0xB || u == 0xC || u == 0xD || u == 0x20 || u == 0x85 || u == 0xA0
        || u == 0x1680 || (0x2000 <= u && u <= 0x200A) || u == 0x2028 || u == 0x2029 || u == 0x202F
        || u == 0x205F || u == 0x3000
}

/// The input with leading white space removed.
pub open spec fn trim_start_spec(s: Seq<char>) -> Seq<char>
    decreases s.len(),
{
    if s.len() > 0 && is_space(s[0]) {
        trim_start_spec(s.drop_first())
    } else {
        s
    }
}

/// The input with trailing white space removed.
pub open spec fn trim_end_spec(s: Seq<char>) -> Seq<char>
    decreases s.len(),
{
    if s.len() > 0 && is_space(s.last()) {
        trim_end_spec(s.drop_last())
    } else {
        s
    }
}

/// The input with white space removed from both ends.
pub open spec fn trim_spec(s: Seq<char>) -> Seq<char> {
    trim_end_spec(trim_start_spec(s))
}

proof fn lemma_trim_start_at(s: Seq<char>, k: int)
    requires
        0 <= k <= s.len(),
        forall|i: int| 0 <= i < k ==> is_space(#[trigger] s[i]),
        k == s.len() || !is_space(s[k]),
    ensures
        trim_start_spec(s) == s.skip(k),
    decreases k,
{
    if k == 0 {
        assert(s.skip(0) =~= s);
    } else {
        lemma_trim_start_at(s.drop_first(), k - 1);
        assert(s.drop_first().skip(k - 1) =~= s.skip(k));
    }
}

proof fn lemma_trim_end_at(s: Seq<char>, k: int)
    requires
        0 <= k <= s.len(),
        forall|i: int| k <= i < s.len() ==> is_space(#[trigger] s[i]),
        k == 0 || !is_space(s[k - 1]),
    ensures
        trim_end_spec(s) == s.take(k),
    decreases s.len(),
{
    if k == s.len() {
        assert(s.take(k) =~= s);
    } else {
        lemma_trim_end_at(s.drop_last(), k);
        assert(s.drop_last().take(k) =~= s.take(k));
    }
}

/// The position of the first `+` in `s` at or after `k`.
pub open spec fn first_plus_from(s: Seq<char>, k: int) -> Option<int>
    decreases s.len() - k,
{
    if k < 0 || k >= s.len() {
        None
    } else if s[k] == '+' {
        Some(k)
    } else {
        first_plus_from(s, k + 1)
    }
}

proof fn lemma_first_plus_found(s: Seq<char>, k: int, p: int)
    requires
        0 <= k <= p < s.len(),
        forall|i: int| k <= i < p ==> #[trigger] s[i] != '+',
        s[p] == '+',
    ensures
        first_plus_from(s, k) == Some(p),
    decreases p - k,
{
    if k < p {
        lemma_first_plus_found(s, k + 1, p);
    }
}

proof fn lemma_first_plus_none(s: Seq<char>, k: int)
    requires
        0 <= k,
        forall|i: int| k <= i < s.len() ==> #[trigger] s[i] != '+',
    ensures
        first_plus_from(s, k) is None,
    decreases s.len() - k,
{
    if k < s.len() {
        lemma_first_plus_none(s, k + 1);
    }
}

/// True when `c` is a decimal digit.
pub open spec fn is_digit(c: char) -> bool {
    0x30 <= c as u32 && c as u32 <= 0x39
}

/// The number the digit string `s` denotes.
pub open spec fn digits_value(s: Seq<char>) -> int
    decreases s.len(),
{
    if s.len() == 0 {
        0
    } else {
        digits_value(s.drop_last()) * 10 + (s.last() as u32 - 0x30)
    }
}

/// What the optional count before the `+` means: nothing written is the
/// maximum, otherwise a number from 1 to 255.
pub open spec fn parse_count_spec(cp: Seq<char>) -> Result<u8, &'static str> {
    if cp.len() == 0 {
        Ok(255u8)
    } else if (forall|i: int| 0 <= i < cp.len() ==> is_digit(#[trigger] cp[i])) && 1
        <= digits_value(cp) && digits_value(cp) <= 255 {
        Ok(digits_value(cp) as u8)
    } else {
        Err("Invalid count")
    }
}

/// The coordinate a single character selects: `1`-`8` (or their shifted
/// symbols) a cascade, `a`-`d` a cell, `w`-`z` a foundation.
pub open spec fn coord_of_char(c: char) -> Option<ToCoordinate> {
    let u = c as u32;
    if 0x31 <= u && u <= 0x38 {
        Some(ToCoordinate::Cascade((u - 0x31) as u8))
    } else if 0x61 <= u && u <= 0x64 {
        Some(ToCoordinate::Cell((u - 0x61) as u8))
    } else if 0x41 <= u && u <= 0x44 {
        Some(ToCoordinate::Cell((u - 0x41) as u8))
    } else if 0x77 <= u && u <= 0x7A {
        Some(ToCoordinate::Foundation((u - 0x77) as u8))
    } else if 0x57 <= u && u <= 0x5A {
        Some(ToCoordinate::Foundation((u - 0x57) as u8))
    } else if c == '!' {
        Some(ToCoordinate::Cascade(0))
    } else if c == '@' {
        Some(ToCoordinate::Cascade(1))
    } else if c == '#' {
        Some(ToCoordinate::Cascade(2))
    } else if c == '$' {
        Some(ToCoordinate::Cascade(3))
    } else if c == '%' {
        Some(ToCoordinate::Cascade(4))
    } else if c == '^' {
        Some(ToCoordinate::Cascade(5))
    } else if c == '&' {
        Some(ToCoordinate::Cascade(6))
    } else if c == '*' {
        Some(ToCoordinate::Cascade(7))
    } else {
        None
    }
}

fn parse_coordinate(c: char) -> (r: Option<ToCoordinate>)
    ensures
        r == coord_of_char(c),
{
    let u = c as u32;
    if 0x31 <= u && u <= 0x38 {
        Some(ToCoordinate::Cascade((u - 0x31) as u8))
    } else if 0x61 <= u && u <= 0x64 {
        Some(ToCoordinate::Cell((u - 0x61) as u8))
    } else if 0x41 <= u && u <= 0x44 {
        Some(ToCoordinate::Cell((u - 0x41) as u8))
    } else if 0x77 <= u && u <= 0x7A {
        Some(ToCoordinate::Foundation((u - 0x77) as u8))
    } else if 0x57 <= u && u <= 0x5A {
        Some(ToCoordinate::Foundation((u - 0x57) as u8))
    } else if c == '!' {
        Some(ToCoordinate::Cascade(0))
    } else if c == '@' {
        Some(ToCoordinate::Cascade(1))
    } else if c == '#' {
        Some(ToCoordinate::Cascade(2))
    } else if c == '$' {
        Some(ToCoordinate::Cascade(3))
    } else if c == '%' {
        Some(ToCoordinate::Cascade(4))
    } else if c == '^' {
        Some(ToCoordinate::Cascade(5))
    } else if c == '&' {
        Some(ToCoordinate::Cascade(6))
    } else if c == '*' {
        Some(ToCoordinate::Cascade(7))
    } else {
        None
    }
}

/// What the two coordinate characters mean, once the count is settled: the
/// source must not be a foundation nor the same slot as the destination.
pub open spec fn parse_coords_spec(cs: Seq<char>, count: Option<u8>) -> Result<
    Action,
    &'static str,
> {
    if cs.len() != 2 {
        Err("Invalid input.")
    } else {
        match coord_of_char(cs[0]) {
            None => Err("Invalid input."),
            Some(ToCoordinate::Foundation(n)) => Err("You cannot take a card from a foundation."),
            Some(c0) => {
                let from = match c0 {
                    ToCoordinate::Cascade(n) => FromCoordinate::Cascade(n),
                    ToCoordinate::Cell(n) => FromCoordinate::Cell(n),
                    ToCoordinate::Foundation(n) => FromCoordinate::Cascade(0),
                };
                match coord_of_char(cs[1]) {
                    None => Err("Invalid input."),
                    Some(c1) => {
                        if same_slot(from, c1) {
                            Err("The source and destination are the same.")
                        } else {
                            Ok(Action::MoveCard { from, to: c1, count })
                        }
                    },
                }
            },
        }
    }
}

/// What parsing a whole command yields: the text is trimmed, split at the
/// first `+` into count and coordinates, and each part read as above.
pub open spec fn parse_action_spec(s: Seq<char>) -> Result<Action, &'static str> {
    let t = trim_spec(s);
    match first_plus_from(t, 0) {
        Some(p) => match parse_count_spec(t.take(p)) {
            Err(m) => Err(m),
            Ok(c) => parse_coords_spec(t.skip(p + 1), Some(c)),
        },
        None => parse_coords_spec(t, None),
    }
}

impl Action {
    /// Parse one textual command into a move request.
    #[verifier::loop_isolation(false)]
    #[verifier::rlimit(100)]
    pub fn from_text(input: &str) -> (r: Result<Action, &'static str>)
        ensures
            r == parse_action_spec(input@),
            r matches Ok(a) ==> a.wf(),
    {
        let n = input.unicode_len();
        let mut start: usize = 0;
        while start < n && char_is_space(input.get_char(start))
            invariant
                start <= n,
                forall|i: int| 0 <= i < start ==> is_space(#[trigger] input@[i]),
            decreases n - start,
        {
            start += 1;
        }
        let mut end: usize = n;
        while end > start && char_is_space(input.get_char(end - 1))
            invariant
                start <= end <= n,
                forall|i: int| end <= i < n ==> is_space(#[trigger] input@[i]),
            decreases end,
        {
            end -= 1;
        }
        let ghost t = trim_spec(input@);
        proof {
            lemma_trim_start_at(input@, start as int);
            lemma_trim_end_at(input@.skip(start as int), end - start);
            assert(input@.skip(start as int).take(end - start) =~= input@.subrange(
                start as int,
                end as int,
            ));
            assert(t == input@.subrange(start as int, end as int));
        }
        let mut p: usize = start;
        while p < end && input.get_char(p) != '+'
            invariant
                start <= p <= end,
                forall|i: int| start <= i < p ==> #[trigger] input@[i] != '+',
            decreases end - p,
        {
            p += 1;
        }
        let count: Option<u8>;
        let cs_start: usize;
        if p < end {
            // a '+' splits count from coordinates
            proof {
                assert(input@[p as int] == '+');
                assert forall|i: int| 0 <= i < p - start implies #[trigger] t[i] != '+' by {
                    assert(t[i] == input@[start + i]);
                }
                lemma_first_plus_found(t, 0, p - start);
            }
            let ghost cp = t.take(p - start);
            proof {
                assert(cp =~= input@.subrange(start as int, p as int));
            }
            if p == start {
                // a bare '+' means the maximum possible run
                count = Some(255);
            } else {
                let mut acc: u32 = 0;
                let mut q: usize = start;
                while q < p
                    invariant
                        start <= q <= p,
                        forall|i: int| 0 <= i < q - start ==> is_digit(#[trigger] cp[i]),
                        digits_value(cp.take(q - start)) <= 255 ==> acc == digits_value(
                            cp.take(q - start),
                        ),
                        digits_value(cp.take(q - start)) > 255 ==> acc == 256,
                        acc <= 256,
                    decreases p - q,
                {
                    let c = input.get_char(q);
                    proof {
                        assert(cp[q - start] == c);
                    }
                    let u = c as u32;
                    if !(0x30 <= u && u <= 0x39) {
                        return Err("Invalid count");
                    }
                    proof {
                        assert(cp.take(q + 1 - start).drop_last() =~= cp.take(q - start));
                        assert(cp.take(q + 1 - start).last() == c);
                    }
                    acc = acc * 10 + (u - 0x30);
                    if acc > 255 {
                        acc = 256;
                    }
                    q += 1;
                }
                proof {
                    assert(cp.take(q - start) =~= cp);
                }
                if acc == 0 || acc == 256 {
                    return Err("Invalid count");
                }
                count = Some(acc as u8);
            }
            cs_start = p + 1;
        } else {
            proof {
                assert forall|i: int| 0 <= i < t.len() implies #[trigger] t[i] != '+' by {
                    assert(t[i] == input@[start + i]);
                }
                lemma_first_plus_none(t, 0);
            }
            count = None;
            cs_start = start;
        }
        let ghost cs = if p < end {
            t.skip(p + 1 - start)
        } else {
            t
        };
        proof {
            assert(cs =~= input@.subrange(cs_start as int, end as int));
        }
        if end - cs_start != 2 {
            return Err("Invalid input.");
        }
        let c0 = input.get_char(cs_start);
        let c1 = input.get_char(cs_start + 1);
        proof {
            assert(cs[0] == c0);
            assert(cs[1] == c1);
        }
        let from = match parse_coordinate(c0) {
            None => {
                return Err("Invalid input.");
            },
            Some(ToCoordinate::Foundation(_)) => {
                return Err("You cannot take a card from a foundation.");
            },
            Some(ToCoordinate::Cascade(n)) => FromCoordinate::Cascade(n),
            Some(ToCoordinate::Cell(n)) => FromCoordinate::Cell(n),
        };
        let to = match parse_coordinate(c1) {
            None => {
                return Err("Invalid input.");
            },
            Some(c) => c,
        };
        if from == to {
            Err("The source and destination are the same.")
        } else {
            Ok(Action::MoveCard { from, to, count })
        }
    }
}

impl core::str::FromStr for Action {
    type Err = &'static str;

    fn from_str(s: &str) -> Result<Action, &'static str> {
        Action::from_text(s)
    }
}

/// The destination the first character of `s` selects.
pub open spec fn parse_to_coordinate_spec(s: Seq<char>) -> Result<ToCoordinate, &'static str> {
    if s.len() == 0 {
        Err("Invalid input.")
    } else {
        match coord_of_char(s[0]) {
            Some(c) => Ok(c),
            None => Err("Invalid input."),
        }
    }
}

impl ToCoordinate {
    /// Read a destination coordinate from the first character of `s`.
    pub fn from_text(s: &str) -> (r: Result<ToCoordinate, &'static str>)
        ensures
            r == parse_to_coordinate_spec(s@),
    {
        if s.unicode_len() == 0 {
            Err("Invalid input.")
        } else {
            match parse_coordinate(s.get_char(0)) {
                Some(c) => Ok(c),
                None => Err("Invalid input."),
            }
        }
    }
}

impl core::str::FromStr for ToCoordinate {
    type Err = &'static str;

    fn from_str(s: &str) -> Result<ToCoordinate, &'static str> {
        ToCoordinate::from_text(s)
    }
}

/// The source the first character of `s` selects; a foundation is refused.
pub open spec fn parse_from_coordinate_spec(s: Seq<char>) -> Result<FromCoordinate, &'static str> {
    match parse_to_coordinate_spec(s) {
        Ok(ToCoordinate::Cascade(n)) => Ok(FromCoordinate::Cascade(n)),
        Ok(ToCoordinate::Cell(n)) => Ok(FromCoordinate::Cell(n)),
        Ok(ToCoordinate::Foundation(n)) => Err("You cannot take a card from a foundation."),
        Err(m) => Err(m),
    }
}

impl FromCoordinate {
    /// Read a source coordinate from the first character of `s`.
    pub fn from_text(s: &str) -> (r: Result<FromCoordinate, &'static str>)
        ensures
            r == parse_from_coordinate_spec(s@),
    {
        match ToCoordinate::from_text(s) {
            Ok(ToCoordinate::Cascade(n)) => Ok(FromCoordinate::Cascade(n)),
            Ok(ToCoordinate::Cell(n)) => Ok(FromCoordinate::Cell(n)),
            Ok(ToCoordinate::Foundation(_)) => Err("You cannot take a card from a foundation."),
            Err(m) => Err(m),
        }
    }
}

impl core::str::FromStr for FromCoordinate {
    type Err = &'static str;

    fn from_str(s: &str) -> Result<FromCoordinate, &'static str> {
        FromCoordinate::from_text(s)
    }
}

impl Action {
    /// The coordinates address real slots and any explicit count is at
    /// least one; what a parsed command always satisfies.
    pub open spec fn wf(self) -> bool {
        match self {
            Action::Undo => true,
            Action::MoveCard { from, to, count } => {
                &&& match from {
                    FromCoordinate::Cascade(n) => n < 8,
                    FromCoordinate::Cell(n) => n < 4,
                }
                &&& match to {
                    ToCoordinate::Cascade(n) => n < 8,
                    ToCoordinate::Cell(n) => n < 4,
                    ToCoordinate::Foundation(n) => n < 4,
                }
                &&& count != Some(0u8)
            },
        }
    }
}

} // verus!
