//! Facts about building a table from a raw mapping: when it succeeds, what
//! the table then holds, and what it fails on otherwise.

use crate::error::PinError;
use crate::table::{
    assigned_chars,
    build_spec,
    digits_in_range,
    insert_entry,
    is_valid_raw,
    lemma_build_err_prefix,
};
use vstd::prelude::*;

verus! {

/// The characters `cs`, each under digit `d`.
pub open spec fn entry_map(d: u32, cs: Seq<char>) -> Map<char, u32> {
    Map::new(|c: char| cs.contains(c), |c: char| d)
}

proof fn lemma_no_dup_concat<A>(a: Seq<A>, b: Seq<A>)
    ensures
        (a + b).no_duplicates() <==> (a.no_duplicates() && b.no_duplicates() && forall|k: int|
            0 <= k < b.len() ==> !a.contains(#[trigger] b[k])),
{
    let s = a + b;
    if s.no_duplicates() {
        assert forall|i: int, j: int| 0 <= i < a.len() && 0 <= j < a.len() && i != j implies a[i]
            != a[j] by {
            assert(s[i] == a[i] && s[j] == a[j]);
        }
        assert forall|i: int, j: int| 0 <= i < b.len() && 0 <= j < b.len() && i != j implies b[i]
            != b[j] by {
            assert(s[a.len() + i] == b[i] && s[a.len() + j] == b[j]);
        }
        assert forall|k: int| 0 <= k < b.len() implies !a.contains(#[trigger] b[k]) by {
            if a.contains(b[k]) {
                let i = choose|i: int| 0 <= i < a.len() && a[i] == b[k];
                assert(s[i] == s[a.len() + k]);
            }
        }
    }
    if a.no_duplicates() && b.no_duplicates() && forall|k: int|
        0 <= k < b.len() ==> !a.contains(#[trigger] b[k]) {
        assert forall|i: int, j: int| 0 <= i < s.len() && 0 <= j < s.len() && i != j implies s[i]
            != s[j] by {
            if i < a.len() && j >= a.len() {
                assert(!a.contains(b[j - a.len()]));
            } else if j < a.len() && i >= a.len() {
                assert(!a.contains(b[i - a.len()]));
            }
        }
    }
}

/// What adding one entry gives, where its digit is in range.
proof fn lemma_insert_entry_ok(t: Map<char, u32>, d: u32, cs: Seq<char>)
    requires
        d <= 9,
    ensures
        insert_entry(t, d, cs) is Ok <==> (cs.no_duplicates() && forall|k: int|
            0 <= k < cs.len() ==> !t.contains_key(#[trigger] cs[k])),
        insert_entry(t, d, cs) is Ok ==> insert_entry(t, d, cs)->Ok_0 == t.union_prefer_right(
            entry_map(d, cs),
        ),
    decreases cs.len(),
{
    if cs.len() == 0 {
        assert(t.union_prefer_right(entry_map(d, cs)) =~= t);
    } else {
        let init = cs.drop_last();
        let c = cs.last();
        lemma_insert_entry_ok(t, d, init);
        assert(cs == init.push(c));
        lemma_no_dup_concat(init, seq![c]);
        assert(init + seq![c] == cs);
        if insert_entry(t, d, init) is Ok {
            let t2 = insert_entry(t, d, init)->Ok_0;
            assert(t2.contains_key(c) <==> (t.contains_key(c) || init.contains(c)));
            if !t2.contains_key(c) {
                assert forall|x: char| #[trigger] cs.contains(x) <==> (init.contains(x) || x == c) by {
                    if cs.contains(x) {
                        let k = choose|k: int| 0 <= k < cs.len() && cs[k] == x;
                        if k < init.len() {
                            assert(init[k] == x);
                        }
                    }
                    if init.contains(x) {
                        let k = choose|k: int| 0 <= k < init.len() && init[k] == x;
                        assert(cs[k] == x);
                    }
                    if x == c {
                        assert(cs[cs.len() - 1] == x);
                    }
                }
                assert(t2.insert(c, d) =~= t.union_prefer_right(entry_map(d, cs)));
            } else {
                if t.contains_key(c) {
                    assert(t.contains_key(cs[cs.len() - 1]));
                } else {
                    assert(init.contains(c));
                    let k = choose|k: int| 0 <= k < init.len() && init[k] == c;
                    assert(cs[k] == cs[cs.len() - 1]);
                }
            }
        } else {
            if cs.no_duplicates() && forall|k: int|
                0 <= k < cs.len() ==> !t.contains_key(#[trigger] cs[k]) {
                assert forall|k: int| 0 <= k < init.len() implies !t.contains_key(
                    #[trigger] init[k],
                ) by {
                    assert(cs[k] == init[k]);
                }
            }
        }
    }
}

/// Each listed character occurs among the assigned characters.
proof fn lemma_assigned_contains(raw: Seq<(u32, Seq<char>)>, i: int, k: int)
    requires
        0 <= i < raw.len(),
        0 <= k < raw[i].1.len(),
    ensures
        assigned_chars(raw).contains(raw[i].1[k]),
    decreases raw.len(),
{
    let a = assigned_chars(raw.drop_last());
    let cs = raw.last().1;
    if i == raw.len() - 1 {
        assert((a + cs)[a.len() + k] == cs[k]);
    } else {
        assert(raw.drop_last()[i] == raw[i]);
        lemma_assigned_contains(raw.drop_last(), i, k);
        let p = choose|p: int| 0 <= p < a.len() && a[p] == raw[i].1[k];
        assert((a + cs)[p] == a[p]);
    }
}

/// Building succeeds exactly on valid mappings, and then holds each listed
/// character under its digit.
pub(crate) proof fn lemma_build_ok(raw: Seq<(u32, Seq<char>)>)
    ensures
        build_spec(raw) is Ok <==> is_valid_raw(raw),
        build_spec(raw) is Ok ==> (forall|c: char|
            #[trigger] build_spec(raw)->Ok_0.contains_key(c) <==> assigned_chars(raw).contains(c)),
        build_spec(raw) is Ok ==> (forall|i: int, k: int|
            0 <= i < raw.len() && 0 <= k < raw[i].1.len() ==> #[trigger] build_spec(raw)->Ok_0[raw[i].1[k]]
                == raw[i].0),
    decreases raw.len(),
{
    if raw.len() == 0 {
        assert(assigned_chars(raw) =~= Seq::<char>::empty());
    } else {
        let prev = raw.drop_last();
        let d = raw.last().0;
        let cs = raw.last().1;
        let a = assigned_chars(prev);
        lemma_build_ok(prev);
        lemma_no_dup_concat(a, cs);
        assert(assigned_chars(raw) == a + cs);
        assert(digits_in_range(raw) <==> digits_in_range(prev) && d <= 9) by {
            if digits_in_range(prev) && d <= 9 {
                assert forall|i: int| 0 <= i < raw.len() implies #[trigger] raw[i].0 <= 9 by {
                    if i < prev.len() {
                        assert(prev[i] == raw[i]);
                    }
                }
            }
            if digits_in_range(raw) {
                assert forall|i: int| 0 <= i < prev.len() implies #[trigger] prev[i].0 <= 9 by {
                    assert(prev[i] == raw[i]);
                }
                assert(raw[raw.len() - 1].0 <= 9);
            }
        }
        assert forall|x: char| #[trigger] (a + cs).contains(x) <==> (a.contains(x) || cs.contains(x)) by {
            if (a + cs).contains(x) {
                let p = choose|p: int| 0 <= p < (a + cs).len() && (a + cs)[p] == x;
                if p >= a.len() {
                    assert(cs[p - a.len()] == x);
                } else {
                    assert(a[p] == x);
                }
            }
            if a.contains(x) {
                let p = choose|p: int| 0 <= p < a.len() && a[p] == x;
                assert((a + cs)[p] == x);
            }
            if cs.contains(x) {
                let p = choose|p: int| 0 <= p < cs.len() && cs[p] == x;
                assert((a + cs)[a.len() + p] == x);
            }
        }
        if build_spec(prev) is Ok && d <= 9 {
            let t = build_spec(prev)->Ok_0;
            lemma_insert_entry_ok(t, d, cs);
            if build_spec(raw) is Ok {
                let r = build_spec(raw)->Ok_0;
                assert forall|i: int, k: int|
                    0 <= i < raw.len() && 0 <= k < raw[i].1.len() implies #[trigger] r[raw[i].1[k]]
                    == raw[i].0 by {
                    if i < prev.len() {
                        assert(prev[i] == raw[i]);
                        lemma_assigned_contains(prev, i, k);
                        if cs.contains(raw[i].1[k]) {
                            let q = choose|q: int| 0 <= q < cs.len() && cs[q] == raw[i].1[k];
                            assert(!t.contains_key(cs[q]));
                        }
                    } else {
                        assert(cs.contains(cs[k]));
                    }
                }
            }
        }
    }
}

/// A mapping whose digits all lie in 0..=9 and which lists no character twice
/// builds a table that holds exactly the listed characters, each under the
/// digit it is listed with.
pub proof fn lemma_valid_mapping_builds(raw: Seq<(u32, Seq<char>)>)
    requires
        is_valid_raw(raw),
    ensures
        build_spec(raw) is Ok,
        forall|c: char|
            #[trigger] build_spec(raw)->Ok_0.contains_key(c) <==> assigned_chars(raw).contains(c),
        forall|i: int, k: int|
            0 <= i < raw.len() && 0 <= k < raw[i].1.len() ==> #[trigger] build_spec(raw)->Ok_0[raw[i].1[k]]
                == raw[i].0,
{
    lemma_build_ok(raw);
}

/// A mapping with a digit above 9 fails to build; where everything before
/// that entry is valid, it fails on that digit.
pub proof fn lemma_digit_out_of_range_fails(raw: Seq<(u32, Seq<char>)>, i: int)
    requires
        0 <= i < raw.len(),
        raw[i].0 > 9,
    ensures
        build_spec(raw) is Err,
        is_valid_raw(raw.take(i)) ==> build_spec(raw) == Err::<Map<char, u32>, PinError>(
            PinError::InvalidDigit(raw[i].0),
        ),
{
    lemma_build_ok(raw);
    if is_valid_raw(raw.take(i)) {
        lemma_build_ok(raw.take(i));
        assert(raw.take(i + 1).drop_last() == raw.take(i));
        lemma_build_err_prefix(raw, i + 1);
    }
}

/// `x` stands at two positions of `s`.
pub open spec fn listed_twice(s: Seq<char>, x: char) -> bool {
    exists|p: int, q: int| 0 <= p < q < s.len() && #[trigger] s[p] == x && #[trigger] s[q] == x
}

/// What an entry that fails to add fails on.
proof fn lemma_insert_entry_err(t: Map<char, u32>, d: u32, cs: Seq<char>)
    requires
        insert_entry(t, d, cs) is Err,
    ensures
        match insert_entry(t, d, cs)->Err_0 {
            PinError::InvalidDigit(x) => x == d && d > 9,
            PinError::DuplicateCharacter(x) => (t.contains_key(x) && cs.contains(x))
                || listed_twice(cs, x),
            _ => false,
        },
    decreases cs.len(),
{
    if d <= 9 && cs.len() > 0 {
        let init = cs.drop_last();
        let c = cs.last();
        if insert_entry(t, d, init) is Err {
            lemma_insert_entry_err(t, d, init);
            match insert_entry(t, d, init)->Err_0 {
                PinError::DuplicateCharacter(x) => {
                    if t.contains_key(x) && init.contains(x) {
                        let k = choose|k: int| 0 <= k < init.len() && init[k] == x;
                        assert(cs[k] == x);
                    } else {
                        let (p, q) = choose|p: int, q: int|
                            0 <= p < q < init.len() && #[trigger] init[p] == x && #[trigger] init[q]
                                == x;
                        assert(cs[p] == x && cs[q] == x);
                    }
                },
                _ => {},
            }
        } else {
            let t2 = insert_entry(t, d, init)->Ok_0;
            lemma_insert_entry_ok(t, d, init);
            assert(t2.contains_key(c));
            if t.contains_key(c) {
                assert(cs[cs.len() - 1] == c);
            } else {
                let k = choose|k: int| 0 <= k < init.len() && init[k] == c;
                assert(cs[k] == c && cs[cs.len() - 1] == c);
            }
        }
    }
}

/// What a mapping that fails to build fails on.
proof fn lemma_build_err(raw: Seq<(u32, Seq<char>)>)
    requires
        build_spec(raw) is Err,
    ensures
        match build_spec(raw)->Err_0 {
            PinError::InvalidDigit(x) => x > 9 && exists|i: int|
                0 <= i < raw.len() && #[trigger] raw[i].0 == x,
            PinError::DuplicateCharacter(x) => listed_twice(assigned_chars(raw), x),
            _ => false,
        },
    decreases raw.len(),
{
    let prev = raw.drop_last();
    let cs = raw.last().1;
    let a = assigned_chars(prev);
    assert(assigned_chars(raw) == a + cs);
    if build_spec(prev) is Err {
        lemma_build_err(prev);
        match build_spec(prev)->Err_0 {
            PinError::InvalidDigit(x) => {
                let i = choose|i: int| 0 <= i < prev.len() && #[trigger] prev[i].0 == x;
                assert(raw[i] == prev[i]);
            },
            PinError::DuplicateCharacter(x) => {
                let (p, q) = choose|p: int, q: int|
                    0 <= p < q < a.len() && #[trigger] a[p] == x && #[trigger] a[q] == x;
                assert((a + cs)[p] == x && (a + cs)[q] == x);
            },
            _ => {},
        }
    } else {
        let t = build_spec(prev)->Ok_0;
        lemma_build_ok(prev);
        lemma_insert_entry_err(t, raw.last().0, cs);
        match build_spec(raw)->Err_0 {
            PinError::InvalidDigit(x) => {
                assert(raw[raw.len() - 1].0 == x);
            },
            PinError::DuplicateCharacter(x) => {
                if t.contains_key(x) && cs.contains(x) {
                    let p = choose|p: int| 0 <= p < a.len() && a[p] == x;
                    let q = choose|q: int| 0 <= q < cs.len() && cs[q] == x;
                    assert((a + cs)[p] == x && (a + cs)[a.len() + q] == x);
                } else {
                    let (p, q) = choose|p: int, q: int|
                        0 <= p < q < cs.len() && #[trigger] cs[p] == x && #[trigger] cs[q] == x;
                    assert((a + cs)[a.len() + p] == x && (a + cs)[a.len() + q] == x);
                }
            },
            _ => {},
        }
    }
}

/// In a valid mapping no character of one entry is listed in a later one.
proof fn lemma_valid_entries_disjoint(
    raw: Seq<(u32, Seq<char>)>,
    i1: int,
    k1: int,
    i2: int,
    k2: int,
)
    requires
        is_valid_raw(raw),
        0 <= i1 < i2 < raw.len(),
        0 <= k1 < raw[i1].1.len(),
        0 <= k2 < raw[i2].1.len(),
    ensures
        raw[i1].1[k1] != raw[i2].1[k2],
    decreases raw.len(),
{
    let prev = raw.drop_last();
    let cs = raw.last().1;
    let a = assigned_chars(prev);
    assert(assigned_chars(raw) == a + cs);
    lemma_no_dup_concat(a, cs);
    assert(prev[i1] == raw[i1]);
    if i2 == raw.len() - 1 {
        lemma_assigned_contains(prev, i1, k1);
        assert(!a.contains(cs[k2]));
    } else {
        assert(prev[i2] == raw[i2]);
        assert forall|i: int| 0 <= i < prev.len() implies #[trigger] prev[i].0 <= 9 by {
            assert(prev[i] == raw[i]);
        }
        lemma_valid_entries_disjoint(prev, i1, k1, i2, k2);
    }
}

/// A mapping that lists a character in two different entries fails to
/// build; where every digit is in range and no other character is listed
/// twice, it fails naming that character.
pub proof fn lemma_repeated_char_fails(
    raw: Seq<(u32, Seq<char>)>,
    i1: int,
    k1: int,
    i2: int,
    k2: int,
)
    requires
        0 <= i1 < i2 < raw.len(),
        0 <= k1 < raw[i1].1.len(),
        0 <= k2 < raw[i2].1.len(),
        raw[i1].1[k1] == raw[i2].1[k2],
    ensures
        build_spec(raw) is Err,
        (digits_in_range(raw) && forall|x: char| #[trigger]
            listed_twice(assigned_chars(raw), x) ==> x == raw[i1].1[k1]) ==> build_spec(raw)
            == Err::<Map<char, u32>, PinError>(PinError::DuplicateCharacter(raw[i1].1[k1])),
{
    lemma_build_ok(raw);
    if is_valid_raw(raw) {
        lemma_valid_entries_disjoint(raw, i1, k1, i2, k2);
    }
    lemma_build_err(raw);
    if digits_in_range(raw) {
        match build_spec(raw)->Err_0 {
            PinError::InvalidDigit(x) => {
                let i = choose|i: int| 0 <= i < raw.len() && #[trigger] raw[i].0 == x;
                assert(raw[i].0 <= 9);
            },
            _ => {},
        }
    }
}

} // verus!
