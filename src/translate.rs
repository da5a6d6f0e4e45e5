use crate::error::PinError;
use crate::table::ParaPin;
use vstd::prelude::*;
use vstd::utf8::{encode_utf8, is_ascii_chars, is_ascii_chars_encode_utf8};

verus! {

broadcast use vstd::std_specs::hash::group_hash_axioms;

/// The White_Space property of Unicode.
pub open spec fn is_white_space(c: char) -> bool {
    let u = c as u32;
    ||| 0x09 <= u <= 0x0D
    ||| u == 0x20
    ||| u == 0x85
    ||| u == 0xA0
    ||| u == 0x1680
    ||| 0x2000 <= u <= 0x200A
    ||| u == 0x2028
    ||| u == 0x2029
    ||| u == 0x202F
    ||| u == 0x205F
    ||| u == 0x3000
}

/// `s` without its leading white space.
pub open spec fn trim_start_spec(s: Seq<char>) -> Seq<char>
    decreases s.len(),
{
    if s.len() > 0 && is_white_space(s[0]) {
        trim_start_spec(s.drop_first())
    } else {
        s
    }
}

/// `s` without its trailing white space.
pub open spec fn trim_end_spec(s: Seq<char>) -> Seq<char>
    decreases s.len(),
{
    if s.len() > 0 && is_white_space(s.last()) {
        trim_end_spec(s.drop_last())
    } else {
        s
    }
}

/// `s` without its leading and trailing white space.
pub open spec fn trim_spec(s: Seq<char>) -> Seq<char> {
    trim_end_spec(trim_start_spec(s))
}

/// The decimal character of a digit.
pub open spec fn digit_char(d: u32) -> char {
    ((d + 48) as u8) as char
}

/// Every character of `m` has an entry in `t`.
pub open spec fn all_known(t: Map<char, u32>, m: Seq<char>) -> bool {
    forall|i: int| 0 <= i < m.len() ==> t.contains_key(#[trigger] m[i])
}

/// The digit characters of the message `m` under table `t`, in order.
pub open spec fn digits_of(t: Map<char, u32>, m: Seq<char>) -> Seq<char> {
    m.map_values(|c: char| digit_char(t[c]))
}

/// Position `i` of `m` holds the first character that `t` lacks.
pub open spec fn first_unknown(t: Map<char, u32>, m: Seq<char>, i: int) -> bool {
    &&& 0 <= i < m.len()
    &&& !t.contains_key(m[i])
    &&& forall|j: int| 0 <= j < i ==> t.contains_key(#[trigger] m[j])
}

/// What translating the (already trimmed) message `m` under table `t` gives:
/// its digits, or the first character that has no entry.
pub open spec fn pin_spec(t: Map<char, u32>, m: Seq<char>) -> Result<Seq<char>, PinError> {
    if all_known(t, m) {
        Ok(digits_of(t, m))
    } else {
        Err(PinError::UnknownCharacter(m[choose|i: int| first_unknown(t, m, i)]))
    }
}

/// A translation result as digit characters, or its error.
pub open spec fn string_outcome(r: Result<String, PinError>) -> Result<Seq<char>, PinError> {
    match r {
        Ok(s) => Ok(s@),
        Err(e) => Err(e),
    }
}

/// Where a character at position `i` lacks an entry, some position up to `i`
/// holds the first such character.
proof fn lemma_first_unknown_exists(t: Map<char, u32>, m: Seq<char>, i: int)
    requires
        0 <= i < m.len(),
        !t.contains_key(m[i]),
    ensures
        exists|j: int| j <= i && first_unknown(t, m, j),
    decreases i,
{
    if !first_unknown(t, m, i) {
        let j = choose|j: int| 0 <= j < i && !t.contains_key(#[trigger] m[j]);
        lemma_first_unknown_exists(t, m, j);
    }
}

/// Where every character of the trimmed message has an entry, translation
/// succeeds with one digit per character; the digits are ASCII, so their
/// UTF-8 encoding has as many bytes as the trimmed message has characters.
pub proof fn lemma_known_message_pins(t: Map<char, u32>, message: Seq<char>)
    requires
        forall|c: char| #[trigger] t.contains_key(c) ==> t[c] <= 9,
        all_known(t, trim_spec(message)),
    ensures
        pin_spec(t, trim_spec(message)) is Ok,
        pin_spec(t, trim_spec(message))->Ok_0.len() == trim_spec(message).len(),
        is_ascii_chars(pin_spec(t, trim_spec(message))->Ok_0),
        encode_utf8(pin_spec(t, trim_spec(message))->Ok_0).len() == trim_spec(message).len(),
{
    let m = trim_spec(message);
    let p = digits_of(t, m);
    assert forall|i: int| 0 <= i < p.len() implies '\0' <= #[trigger] p[i] <= '~' by {
        let d = t[m[i]];
        assert(t.contains_key(m[i]));
        assert(48 <= d + 48 <= 57);
        assert(p[i] == digit_char(d));
    }
    is_ascii_chars_encode_utf8(p);
}

/// Where some character of the trimmed message lacks an entry, translation
/// fails naming the first such character.
pub proof fn lemma_unknown_char_fails(t: Map<char, u32>, message: Seq<char>, i: int)
    requires
        0 <= i < trim_spec(message).len(),
        !t.contains_key(trim_spec(message)[i]),
    ensures
        exists|j: int|
            j <= i && first_unknown(t, trim_spec(message), j) && pin_spec(t, trim_spec(message))
                == Err::<Seq<char>, PinError>(PinError::UnknownCharacter(trim_spec(message)[j])),
{
    let m = trim_spec(message);
    lemma_first_unknown_exists(t, m, i);
    let j = choose|j: int| j <= i && first_unknown(t, m, j);
    let k = choose|k: int| first_unknown(t, m, k);
    if k < j {
        assert(t.contains_key(m[k]));
    } else if j < k {
        assert(t.contains_key(m[j]));
    }
    assert(!all_known(t, m));
}

/// Two translations of the same message under the same table give the same
/// outcome.
pub proof fn lemma_pin_deterministic(
    p: ParaPin,
    message: &str,
    r1: Result<String, PinError>,
    r2: Result<String, PinError>,
)
    requires
        string_outcome(r1) == pin_spec(p@, trim_spec(message@)),
        string_outcome(r2) == pin_spec(p@, trim_spec(message@)),
    ensures
        string_outcome(r1) == string_outcome(r2),
{
}

/// Relies on `str::trim`: the slice without leading and trailing White_Space.
#[verifier::external_body]
fn trim(s: &str) -> (r: &str)
    ensures
        r@ == trim_spec(s@),
{
    s.trim()
}

/// Relies on `String::push`: appends one character.
#[verifier::external_body]
fn push_char(s: &mut String, c: char)
    ensures
        final(s)@ == old(s)@.push(c),
{
    s.push(c)
}

fn to_digit_char(d: u32) -> (r: char)
    requires
        d <= 9,
    ensures
        r == digit_char(d),
{
    ((d as u8) + 48u8) as char
}

impl ParaPin {
    /// Translates a message, trimmed of surrounding white space, character by
    /// character, and stops at the first character without an entry.
    pub fn pin(&self, message: &str) -> (r: Result<String, PinError>)
        ensures
            string_outcome(r) == pin_spec(self@, trim_spec(message@)),
    {
        let trimmed = trim(message);
        let ghost m = trimmed@;
        let mut pin = String::new();
        for c in it: trimmed.chars()
            invariant
                m == trimmed@,
                m == trim_spec(message@),
                it.seq() == m,
                all_known(self@, m.take(it.index() as int)),
                pin@ == digits_of(self@, m.take(it.index() as int)),
        {
            let ghost i = it.index() as int;
            assert(c == m[i]);
            match self.translate(&c) {
                Ok(d) => {
                    push_char(&mut pin, to_digit_char(d));
                    assert(m.take(i + 1) == m.take(i).push(c));
                    assert(digits_of(self@, m.take(i + 1)) == digits_of(self@, m.take(i)).push(
                        digit_char(d),
                    ));
                },
                Err(e) => {
                    assert forall|j: int| 0 <= j < i implies self@.contains_key(#[trigger] m[j]) by {
                        assert(m.take(i)[j] == m[j]);
                    }
                    assert(first_unknown(self@, m, i));
                    proof {
                        let j = choose|j: int| first_unknown(self@, m, j);
                        assert(j == i);
                        assert(!all_known(self@, m));
                    }

                    return Err(e);
                },
            }
        }
        assert(m.take(m.len() as int) == m);
        Ok(pin)
    }
}

} // verus!
