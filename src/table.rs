use crate::error::PinError;
use std::collections::HashMap;
use vstd::prelude::*;
use crate::build_facts::lemma_build_ok;
use vstd::utf8::char_u32_cast;

verus! {

broadcast use vstd::std_specs::hash::group_hash_axioms;

/// Adds the characters `cs` under digit `d` to the table `t`, one at a time,
/// stopping at the first problem: a digit above 9, or a character already present.
pub open spec fn insert_entry(t: Map<char, u32>, d: u32, cs: Seq<char>) -> Result<
    Map<char, u32>,
    PinError,
>
    decreases cs.len(),
{
    if d > 9 {
        Err(PinError::InvalidDigit(d))
    } else if cs.len() == 0 {
        Ok(t)
    } else {
        match insert_entry(t, d, cs.drop_last()) {
            Err(e) => Err(e),
            Ok(t2) => if t2.contains_key(cs.last()) {
                Err(PinError::DuplicateCharacter(cs.last()))
            } else {
                Ok(t2.insert(cs.last(), d))
            },
        }
    }
}

/// The table that a raw mapping (digit, characters) yields when its entries
/// are taken in order, or the first problem met on the way.
pub open spec fn build_spec(raw: Seq<(u32, Seq<char>)>) -> Result<Map<char, u32>, PinError>
    decreases raw.len(),
{
    if raw.len() == 0 {
        Ok(Map::empty())
    } else {
        match build_spec(raw.drop_last()) {
            Err(e) => Err(e),
            Ok(t) => insert_entry(t, raw.last().0, raw.last().1),
        }
    }
}

/// All characters of a raw mapping, in scan order.
pub open spec fn assigned_chars(raw: Seq<(u32, Seq<char>)>) -> Seq<char>
    decreases raw.len(),
{
    if raw.len() == 0 {
        Seq::empty()
    } else {
        assigned_chars(raw.drop_last()) + raw.last().1
    }
}

/// Every digit of the raw mapping lies in 0..=9.
pub open spec fn digits_in_range(raw: Seq<(u32, Seq<char>)>) -> bool {
    forall|i: int| 0 <= i < raw.len() ==> #[trigger] raw[i].0 <= 9
}

/// Every digit is in range and no character is listed twice.
pub open spec fn is_valid_raw(raw: Seq<(u32, Seq<char>)>) -> bool {
    digits_in_range(raw) && assigned_chars(raw).no_duplicates()
}

/// The built-in table: a,b→0; c,d→1; e,f→2; g,h→3; i,j,k→4; l,m,n→5; o,p,q→6;
/// r,s,t→7; u,v,w→8; x,y,z→9.
pub open spec fn default_table() -> Map<char, u32> {
    map![
        'a' => 0u32,
        'b' => 0u32,
        'c' => 1u32,
        'd' => 1u32,
        'e' => 2u32,
        'f' => 2u32,
        'g' => 3u32,
        'h' => 3u32,
        'i' => 4u32,
        'j' => 4u32,
        'k' => 4u32,
        'l' => 5u32,
        'm' => 5u32,
        'n' => 5u32,
        'o' => 6u32,
        'p' => 6u32,
        'q' => 6u32,
        'r' => 7u32,
        's' => 7u32,
        't' => 7u32,
        'u' => 8u32,
        'v' => 8u32,
        'w' => 8u32,
        'x' => 9u32,
        'y' => 9u32,
        'z' => 9u32,
    ]
}

/// The built-in table keyed by scalar values: the codes 97 ('a') to 122
/// ('z') and nothing else, under the digits of `default_table`.
pub open spec fn default_code_table() -> Map<u32, u32> {
    map![
        97u32 => 0u32,
        98u32 => 0u32,
        99u32 => 1u32,
        100u32 => 1u32,
        101u32 => 2u32,
        102u32 => 2u32,
        103u32 => 3u32,
        104u32 => 3u32,
        105u32 => 4u32,
        106u32 => 4u32,
        107u32 => 4u32,
        108u32 => 5u32,
        109u32 => 5u32,
        110u32 => 5u32,
        111u32 => 6u32,
        112u32 => 6u32,
        113u32 => 6u32,
        114u32 => 7u32,
        115u32 => 7u32,
        116u32 => 7u32,
        117u32 => 8u32,
        118u32 => 8u32,
        119u32 => 8u32,
        120u32 => 9u32,
        121u32 => 9u32,
        122u32 => 9u32,
    ]
}

/// A table keyed by scalar values, seen as a table keyed by characters.
pub open spec fn key_map(m: Map<u32, u32>) -> Map<char, u32> {
    Map::new(|c: char| m.contains_key(c as u32), |c: char| m[c as u32])
}

proof fn lemma_key_map_insert(m: Map<u32, u32>, c: char, d: u32)
    ensures
        key_map(m.insert(c as u32, d)) == key_map(m).insert(c, d),
{
    let a = key_map(m.insert(c as u32, d));
    let b = key_map(m).insert(c, d);
    assert forall|x: char| #[trigger] a.contains_key(x) == b.contains_key(x) by {
        char_u32_cast(x, x as u32);
        char_u32_cast(c, c as u32);
    }
    assert forall|x: char| #[trigger] a.contains_key(x) implies a[x] == b[x] by {
        char_u32_cast(x, x as u32);
        char_u32_cast(c, c as u32);
    }
    assert(a =~= b);
}

/// Once some characters of an entry fail, the whole entry fails the same way.
proof fn lemma_insert_entry_err_prefix(t: Map<char, u32>, d: u32, cs: Seq<char>, k: int)
    requires
        0 <= k <= cs.len(),
        insert_entry(t, d, cs.take(k)) is Err,
    ensures
        insert_entry(t, d, cs) == insert_entry(t, d, cs.take(k)),
    decreases cs.len() - k,
{
    if k < cs.len() {
        assert(cs.take(k + 1).drop_last() == cs.take(k));
        lemma_insert_entry_err_prefix(t, d, cs, k + 1);
    } else {
        assert(cs.take(k) == cs);
    }
}

/// Once some entries fail, the whole mapping fails the same way.
pub(crate) proof fn lemma_build_err_prefix(raw: Seq<(u32, Seq<char>)>, i: int)
    requires
        0 <= i <= raw.len(),
        build_spec(raw.take(i)) is Err,
    ensures
        build_spec(raw) == build_spec(raw.take(i)),
    decreases raw.len() - i,
{
    if i < raw.len() {
        assert(raw.take(i + 1).drop_last() == raw.take(i));
        lemma_build_err_prefix(raw, i + 1);
    } else {
        assert(raw.take(i) == raw);
    }
}

/// Adds one entry to a table keyed by scalar values.
fn put(m: &mut HashMap<u32, u32>, c: char, d: u32)
    requires
        d <= 9,
        forall|k: u32| #[trigger] old(m)@.contains_key(k) ==> old(m)@[k] <= 9,
    ensures
        final(m)@ == old(m)@.insert(c as u32, d),
        key_map(final(m)@) == key_map(old(m)@).insert(c, d),
        forall|k: u32| #[trigger] final(m)@.contains_key(k) ==> final(m)@[k] <= 9,
{
    proof {
        lemma_key_map_insert(m@, c, d);
    }
    m.insert(c as u32, d);
}

/// The built-in table, keyed by scalar values.
pub fn default_translate_map() -> (r: HashMap<u32, u32>)
    ensures
        r@ == default_code_table(),
        r@.len() == 26,
        key_map(r@) == default_table(),
        forall|k: u32| #[trigger] r@.contains_key(k) ==> r@[k] <= 9,
{
    let mut m: HashMap<u32, u32> = HashMap::new();
    assert(key_map(m@) =~= Map::empty());
    assert(m@ =~= Map::empty());
    put(&mut m, 'a', 0);
    put(&mut m, 'b', 0);
    put(&mut m, 'c', 1);
    put(&mut m, 'd', 1);
    put(&mut m, 'e', 2);
    put(&mut m, 'f', 2);
    put(&mut m, 'g', 3);
    put(&mut m, 'h', 3);
    put(&mut m, 'i', 4);
    put(&mut m, 'j', 4);
    put(&mut m, 'k', 4);
    put(&mut m, 'l', 5);
    put(&mut m, 'm', 5);
    put(&mut m, 'n', 5);
    put(&mut m, 'o', 6);
    put(&mut m, 'p', 6);
    put(&mut m, 'q', 6);
    put(&mut m, 'r', 7);
    put(&mut m, 's', 7);
    put(&mut m, 't', 7);
    put(&mut m, 'u', 8);
    put(&mut m, 'v', 8);
    put(&mut m, 'w', 8);
    put(&mut m, 'x', 9);
    put(&mut m, 'y', 9);
    put(&mut m, 'z', 9);
    assert(m@ =~= default_code_table());
    m
}

/// A validated character-to-digit table.
///
/// Characters are stored by their scalar value.
pub struct ParaPin {
    translate_map: HashMap<u32, u32>,
}

impl View for ParaPin {
    type V = Map<char, u32>;

    closed spec fn view(&self) -> Map<char, u32> {
        key_map(self.translate_map@)
    }
}

impl Default for ParaPin {
    /// The built-in table.
    fn default() -> (r: Self)
        ensures
            r@ == default_table(),
    {
        ParaPin { translate_map: default_translate_map() }
    }
}

impl ParaPin {
    /// Every stored digit lies in 0..=9.
    #[verifier::type_invariant]
    closed spec fn digits_valid(&self) -> bool {
        forall|k: u32| #[trigger]
            self.translate_map@.contains_key(k) ==> self.translate_map@[k] <= 9
    }

    /// Looks up the digit of one character.
    pub fn translate(&self, c: &char) -> (r: Result<u32, PinError>)
        ensures
            match r {
                Ok(d) => self@.contains_key(*c) && d == self@[*c] && d <= 9,
                Err(e) => !self@.contains_key(*c) && e == PinError::UnknownCharacter(*c),
            },
    {
        proof {
            use_type_invariant(self);
        }
        match self.translate_map.get(&(*c as u32)) {
            Some(d) => Ok(*d),
            None => Err(PinError::UnknownCharacter(*c)),
        }
    }

    /// Builds the table from a raw mapping, taking its entries and their
    /// characters in order, and fails on the first digit above 9 or the first
    /// character that is already assigned.
    pub fn from(config: Vec<(u32, Vec<char>)>) -> (r: Result<Self, PinError>)
        ensures
            match r {
                Ok(p) => build_spec(config.deep_view()) == Ok::<Map<char, u32>, PinError>(p@),
                Err(e) => build_spec(config.deep_view()) == Err::<Map<char, u32>, PinError>(e),
            },
            r is Ok <==> is_valid_raw(config.deep_view()),
    {
        let ghost raw = config.deep_view();
        let mut translate_map: HashMap<u32, u32> = HashMap::new();
        let mut i: usize = 0;
        assert(key_map(translate_map@) =~= Map::empty());
        assert(raw.take(0) =~= Seq::empty());
        while i < config.len()
            invariant
                0 <= i <= config.len(),
                raw == config.deep_view(),
                build_spec(raw.take(i as int)) == Ok::<Map<char, u32>, PinError>(
                    key_map(translate_map@),
                ),
                forall|k: u32| #[trigger]
                    translate_map@.contains_key(k) ==> translate_map@[k] <= 9,
            decreases config.len() - i,
        {
            let digit = config[i].0;
            assert(raw.take(i + 1).drop_last() == raw.take(i as int));
            assert(raw[i as int] == (digit, config@[i as int].1@));
            if digit > 9 {
                proof {
                    lemma_build_err_prefix(raw, i + 1);
                    lemma_build_ok(raw);
                }
                return Err(PinError::InvalidDigit(digit));
            }
            let characters = &config[i].1;
            let mut k: usize = 0;
            while k < characters.len()
                invariant
                    0 <= i < config.len(),
                    0 <= k <= characters.len(),
                    raw == config.deep_view(),
                    characters == &config@[i as int].1,
                    digit == config@[i as int].0,
                    digit <= 9,
                    build_spec(raw.take(i + 1)) == insert_entry(
                        build_spec(raw.take(i as int))->Ok_0,
                        digit,
                        characters@,
                    ),
                    build_spec(raw.take(i as int)) is Ok,
                    insert_entry(build_spec(raw.take(i as int))->Ok_0, digit, characters@.take(k as int))
                        == Ok::<Map<char, u32>, PinError>(key_map(translate_map@)),
                    forall|k: u32| #[trigger]
                        translate_map@.contains_key(k) ==> translate_map@[k] <= 9,
                decreases characters.len() - k,
            {
                let c = characters[k];
                assert(characters@.take(k + 1).drop_last() == characters@.take(k as int));
                if translate_map.contains_key(&(c as u32)) {
                    proof {
                        lemma_build_ok(raw);
                        lemma_insert_entry_err_prefix(
                            build_spec(raw.take(i as int))->Ok_0,
                            digit,
                            characters@,
                            k + 1,
                        );
                        lemma_build_err_prefix(raw, i + 1);
                    }
                    return Err(PinError::DuplicateCharacter(c));
                }
                proof {
                    lemma_key_map_insert(translate_map@, c, digit);
                }
                translate_map.insert(c as u32, digit);
                k = k + 1;
            }
            assert(characters@.take(k as int) == characters@);
            i = i + 1;
        }
        assert(raw.take(i as int) == raw);
        proof {
            lemma_build_ok(raw);
        }
        Ok(ParaPin { translate_map })
    }
}

} // verus!
