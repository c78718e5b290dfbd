//! Alphabets, the filter / refill pair, and small shared helpers.
use vstd::arithmetic::div_mod::{
    lemma_fundamental_div_mod,
    lemma_fundamental_div_mod_converse,
    lemma_mod_multiples_basic,
};
use vstd::prelude::*;

verus! {

/// The 26 letters of the Latin alphabet.
pub const ENGLISH: &'static str = "ABCDEFGHIJKLMNOPQRSTUVWXYZ";

/// The keyed alphabet of the Kryptos sculpture.
pub const KRYPTOS: &'static str = "KRYPTOSABCDEFGHIJLMNQUVWXZ";

/// Why a cipher could not be built.
#[derive(Debug, Clone, Copy, PartialEq, Eq, Structural)]
pub enum CipherError {
    /// The alphabet names a symbol twice.
    DuplicateAlphabetSymbol,
    /// The alphabet has no symbol at all.
    EmptyAlphabet,
    /// A key, primer or keyword holds a symbol outside the alphabet.
    InvalidKeywordCharacter,
    /// A key, primer or keyword is empty.
    EmptyKeyword,
    /// The affine factor has no multiplicative inverse modulo the alphabet size.
    NoModularInverse,
    /// A transposition matrix was asked for with no rows.
    ZeroRows,
}

/// An alphabet: a non-empty sequence of symbols, none repeated.
pub open spec fn valid_alphabet(a: Seq<char>) -> bool {
    a.len() > 0 && a.no_duplicates()
}

/// The position of `c` in `a` (meaningful when `c` is a member).
pub open spec fn index_of(a: Seq<char>, c: char) -> int {
    choose|i: int| 0 <= i < a.len() && a[i] == c
}

/// Which error an alphabet that is not valid gives.
pub open spec fn alphabet_error(a: Seq<char>) -> CipherError {
    if a.len() == 0 {
        CipherError::EmptyAlphabet
    } else {
        CipherError::DuplicateAlphabetSymbol
    }
}

/// A key, primer or keyword: non-empty, and made of members of the alphabet.
pub open spec fn valid_key(k: Seq<char>, a: Seq<char>) -> bool {
    k.len() > 0 && all_members(k, a)
}

/// Which error a key that is not valid gives.
pub open spec fn key_error(k: Seq<char>) -> CipherError {
    if k.len() == 0 {
        CipherError::EmptyKeyword
    } else {
        CipherError::InvalidKeywordCharacter
    }
}

/// `i` is a multiplicative inverse of `a` modulo `m`.
pub open spec fn is_inverse(a: int, i: int, m: int) -> bool {
    (a * i) % m == 1
}

/// `i` is the smallest multiplicative inverse of `a` modulo `m` in `[0, m)`.
pub open spec fn is_least_inverse(a: int, i: int, m: int) -> bool {
    &&& 0 <= i < m
    &&& is_inverse(a, i, m)
    &&& forall|j: int| 0 <= j < i ==> !is_inverse(a, j, m)
}

/// `a` has a multiplicative inverse modulo `m` in `[0, m)`.
pub open spec fn has_inverse(a: int, m: int) -> bool {
    exists|j: int| 0 <= j < m && is_inverse(a, j, m)
}

/// In a valid alphabet the position of a member is in range and names it.
pub proof fn lemma_index_of(a: Seq<char>, c: char)
    requires
        a.contains(c),
    ensures
        0 <= index_of(a, c) < a.len(),
        a[index_of(a, c)] == c,
{
}

/// In a valid alphabet the symbol at position `i` has position `i`.
pub proof fn lemma_index_of_at(a: Seq<char>, i: int)
    requires
        valid_alphabet(a),
        0 <= i < a.len(),
    ensures
        index_of(a, a[i]) == i,
{
    assert(a.contains(a[i]));
    lemma_index_of(a, a[i]);
}

/// The members of `a` in `t`, in the order they appear.
pub open spec fn members(t: Seq<char>, a: Seq<char>) -> Seq<char>
    decreases t.len(),
{
    if t.len() == 0 {
        Seq::empty()
    } else if a.contains(t[0]) {
        seq![t[0]] + members(t.drop_first(), a)
    } else {
        members(t.drop_first(), a)
    }
}

/// Walks `template`: a non-member is kept, each member slot takes the next symbol of
/// `stream` (or nothing once `stream` is used up), and what is left of `stream` at
/// the end is appended.
pub open spec fn refilled(stream: Seq<char>, template: Seq<char>, a: Seq<char>) -> Seq<char>
    decreases template.len(),
{
    if template.len() == 0 {
        stream
    } else if !a.contains(template[0]) {
        seq![template[0]] + refilled(stream, template.drop_first(), a)
    } else if stream.len() == 0 {
        refilled(stream, template.drop_first(), a)
    } else {
        seq![stream[0]] + refilled(stream.drop_first(), template.drop_first(), a)
    }
}

/// Every symbol of `s` belongs to `a`.
pub open spec fn all_members(s: Seq<char>, a: Seq<char>) -> bool {
    forall|k: int| 0 <= k < s.len() ==> a.contains(#[trigger] s[k])
}

/// The members of a stream that holds only members are the stream itself.
pub proof fn lemma_members_of_members(s: Seq<char>, a: Seq<char>)
    requires
        all_members(s, a),
    ensures
        members(s, a) == s,
    decreases s.len(),
{
    if s.len() > 0 {
        assert(a.contains(s[0]));
        assert(all_members(s.drop_first(), a)) by {
            assert forall|k: int| 0 <= k < s.drop_first().len() implies a.contains(
                #[trigger] s.drop_first()[k],
            ) by {
                assert(s.drop_first()[k] == s[k + 1]);
            }
        }
        lemma_members_of_members(s.drop_first(), a);
        assert(seq![s[0]] + s.drop_first() =~= s);
    }
}

/// Refilling a text with its own members gives the text back.
pub proof fn lemma_refill_own_members(t: Seq<char>, a: Seq<char>)
    ensures
        refilled(members(t, a), t, a) == t,
    decreases t.len(),
{
    if t.len() > 0 {
        lemma_refill_own_members(t.drop_first(), a);
        if a.contains(t[0]) {
            assert((seq![t[0]] + members(t.drop_first(), a)).drop_first() =~= members(
                t.drop_first(),
                a,
            ));
        }
        assert(seq![t[0]] + t.drop_first() =~= t);
    }
}

/// Refilling puts every symbol of the stream into the output, in order: the
/// members of the output are the stream.
pub proof fn lemma_members_of_refilled(s: Seq<char>, t: Seq<char>, a: Seq<char>)
    requires
        all_members(s, a),
    ensures
        members(refilled(s, t, a), a) == s,
    decreases t.len(),
{
    if t.len() == 0 {
        lemma_members_of_members(s, a);
    } else if !a.contains(t[0]) {
        lemma_members_of_refilled(s, t.drop_first(), a);
        let r = refilled(s, t.drop_first(), a);
        assert((seq![t[0]] + r).drop_first() =~= r);
    } else if s.len() == 0 {
        lemma_members_of_refilled(s, t.drop_first(), a);
    } else {
        assert(all_members(s.drop_first(), a)) by {
            assert forall|k: int| 0 <= k < s.drop_first().len() implies a.contains(
                #[trigger] s.drop_first()[k],
            ) by {
                assert(s.drop_first()[k] == s[k + 1]);
            }
        }
        lemma_members_of_refilled(s.drop_first(), t.drop_first(), a);
        let r = refilled(s.drop_first(), t.drop_first(), a);
        assert(a.contains(s[0]));
        assert((seq![s[0]] + r).drop_first() =~= r);
        assert(seq![s[0]] + s.drop_first() =~= s);
    }
}

/// A stream with no symbols fills no slot: refilling a text of members with it
/// leaves nothing.
pub proof fn lemma_refill_empty_stream(t: Seq<char>, a: Seq<char>)
    requires
        all_members(t, a),
    ensures
        refilled(Seq::<char>::empty(), t, a) == Seq::<char>::empty(),
    decreases t.len(),
{
    if t.len() > 0 {
        assert(a.contains(t[0]));
        assert(all_members(t.drop_first(), a)) by {
            assert forall|k: int| 0 <= k < t.drop_first().len() implies a.contains(
                #[trigger] t.drop_first()[k],
            ) by {
                assert(t.drop_first()[k] == t[k + 1]);
            }
        }
        lemma_refill_empty_stream(t.drop_first(), a);
    }
}

/// A text refilled with at least as many symbols as it has members keeps its
/// skeleton: refilling the result again is the same as refilling the text.
pub proof fn lemma_refill_twice(s1: Seq<char>, s2: Seq<char>, t: Seq<char>, a: Seq<char>)
    requires
        all_members(s1, a),
        s1.len() >= members(t, a).len(),
        s2.len() == members(t, a).len(),
    ensures
        refilled(s2, refilled(s1, t, a), a) == refilled(s2, t, a),
    decreases t.len(),
{
    if t.len() == 0 {
        lemma_refill_empty_stream(s1, a);
        assert(s2 =~= Seq::<char>::empty());
    } else if !a.contains(t[0]) {
        lemma_refill_twice(s1, s2, t.drop_first(), a);
        let r = refilled(s1, t.drop_first(), a);
        assert((seq![t[0]] + r)[0] == t[0]);
        assert((seq![t[0]] + r).drop_first() =~= r);
    } else {
        assert(all_members(s1.drop_first(), a)) by {
            assert forall|k: int| 0 <= k < s1.drop_first().len() implies a.contains(
                #[trigger] s1.drop_first()[k],
            ) by {
                assert(s1.drop_first()[k] == s1[k + 1]);
            }
        }
        lemma_refill_twice(s1.drop_first(), s2.drop_first(), t.drop_first(), a);
        let r = refilled(s1.drop_first(), t.drop_first(), a);
        assert(a.contains(s1[0]));
        assert((seq![s1[0]] + r)[0] == s1[0]);
        assert((seq![s1[0]] + r).drop_first() =~= r);
    }
}

/// A refilled text keeps every non-member of the template at its position, as
/// long as the stream fills every slot.
pub proof fn lemma_refill_keeps_non_members(s: Seq<char>, t: Seq<char>, a: Seq<char>)
    requires
        s.len() >= members(t, a).len(),
    ensures
        refilled(s, t, a).len() == t.len() + s.len() - members(t, a).len(),
        forall|j: int|
            0 <= j < t.len() && !a.contains(t[j]) ==> #[trigger] refilled(s, t, a)[j] == t[j],
    decreases t.len(),
{
    if t.len() > 0 {
        if !a.contains(t[0]) {
            lemma_refill_keeps_non_members(s, t.drop_first(), a);
            let r = refilled(s, t.drop_first(), a);
            assert forall|j: int| 0 <= j < t.len() && !a.contains(t[j]) implies #[trigger] refilled(
                s,
                t,
                a,
            )[j] == t[j] by {
                if j > 0 {
                    assert(refilled(s, t, a)[j] == r[j - 1]);
                    assert(t.drop_first()[j - 1] == t[j]);
                }
            }
        } else {
            lemma_refill_keeps_non_members(s.drop_first(), t.drop_first(), a);
            let r = refilled(s.drop_first(), t.drop_first(), a);
            assert forall|j: int| 0 <= j < t.len() && !a.contains(t[j]) implies #[trigger] refilled(
                s,
                t,
                a,
            )[j] == t[j] by {
                if j > 0 {
                    assert(refilled(s, t, a)[j] == r[j - 1]);
                    assert(t.drop_first()[j - 1] == t[j]);
                }
            }
        }
    }
}

/// The symbols at the positions of `idx` that lie inside the alphabet, in order;
/// positions past its end are dropped.
pub open spec fn decoded(idx: Seq<int>, a: Seq<char>) -> Seq<char>
    decreases idx.len(),
{
    if idx.len() == 0 {
        Seq::empty()
    } else if 0 <= idx[0] < a.len() {
        seq![a[idx[0]]] + decoded(idx.drop_first(), a)
    } else {
        decoded(idx.drop_first(), a)
    }
}

/// The positions of a stream of members.
pub open spec fn encoded(s: Seq<char>, a: Seq<char>) -> Seq<int> {
    s.map_values(|c: char| index_of(a, c))
}

/// Positions as mathematical integers.
pub open spec fn widen32(v: Seq<u32>) -> Seq<int> {
    v.map_values(|x: u32| x as int)
}

/// Positions as mathematical integers.
pub open spec fn widen(v: Seq<usize>) -> Seq<int> {
    v.map_values(|x: usize| x as int)
}

/// The members of a text all belong to the alphabet.
pub proof fn lemma_members_are_members(t: Seq<char>, a: Seq<char>)
    ensures
        all_members(members(t, a), a),
    decreases t.len(),
{
    if t.len() > 0 {
        lemma_members_are_members(t.drop_first(), a);
        let rest = members(t.drop_first(), a);
        if a.contains(t[0]) {
            assert forall|k: int| 0 <= k < members(t, a).len() implies a.contains(
                #[trigger] members(t, a)[k],
            ) by {
                if k > 0 {
                    assert(members(t, a)[k] == rest[k - 1]);
                }
            }
        }
    }
}

/// `r` keeps every character of `t` that is not a member of `a` at its position.
pub open spec fn keeps_non_members(r: Seq<char>, t: Seq<char>, a: Seq<char>) -> bool {
    forall|j: int| 0 <= j < t.len() && !a.contains(t[j]) ==> j < r.len() && #[trigger] r[j] == t[j]
}

/// Every member position of `t` holds a member in `r`.
pub open spec fn keeps_member_slots(r: Seq<char>, t: Seq<char>, a: Seq<char>) -> bool {
    forall|j: int| 0 <= j < t.len() && a.contains(#[trigger] t[j]) ==> j < r.len() && a.contains(r[j])
}

/// Refilling with a stream of members that fills every slot puts a member in
/// each member slot.
pub proof fn lemma_refill_member_slots(s: Seq<char>, t: Seq<char>, a: Seq<char>)
    requires
        all_members(s, a),
        s.len() >= members(t, a).len(),
    ensures
        keeps_member_slots(refilled(s, t, a), t, a),
    decreases t.len(),
{
    if t.len() > 0 {
        let r = refilled(s, t, a);
        if !a.contains(t[0]) {
            lemma_refill_member_slots(s, t.drop_first(), a);
            let rest = refilled(s, t.drop_first(), a);
            assert(r == seq![t[0]] + rest);
            assert forall|j: int| 0 <= j < t.len() && a.contains(#[trigger] t[j]) implies j < r.len()
                && a.contains(r[j]) by {
                if j > 0 {
                    assert(t.drop_first()[j - 1] == t[j]);
                    assert(r[j] == rest[j - 1]);
                }
            }
        } else {
            assert(all_members(s.drop_first(), a)) by {
                assert forall|k: int| 0 <= k < s.drop_first().len() implies a.contains(
                    #[trigger] s.drop_first()[k],
                ) by {
                    assert(s.drop_first()[k] == s[k + 1]);
                }
            }
            lemma_refill_member_slots(s.drop_first(), t.drop_first(), a);
            let rest = refilled(s.drop_first(), t.drop_first(), a);
            assert(r == seq![s[0]] + rest);
            assert forall|j: int| 0 <= j < t.len() && a.contains(#[trigger] t[j]) implies j < r.len()
                && a.contains(r[j]) by {
                if j == 0 {
                    assert(a.contains(s[0]));
                } else {
                    assert(t.drop_first()[j - 1] == t[j]);
                    assert(r[j] == rest[j - 1]);
                }
            }
        }
    }
}

/// Substitution through the skeleton: when a stream `e` with as many symbols as
/// `t` has members is written into `t`, the members of the result are `e`, and
/// writing the members of `t` back into it restores `t`.
pub proof fn lemma_refill_round_trip(t: Seq<char>, e: Seq<char>, a: Seq<char>)
    requires
        all_members(e, a),
        e.len() == members(t, a).len(),
    ensures
        members(refilled(e, t, a), a) == e,
        refilled(members(t, a), refilled(e, t, a), a) == t,
{
    lemma_members_of_refilled(e, t, a);
    lemma_refill_twice(e, members(t, a), t, a);
    lemma_refill_own_members(t, a);
}

/// A substitution keeps the length of the text and every non-member in place,
/// and puts a member in every member slot.
pub proof fn lemma_substitution_keeps_non_members(t: Seq<char>, e: Seq<char>, a: Seq<char>)
    requires
        e.len() == members(t, a).len(),
        all_members(e, a),
    ensures
        refilled(e, t, a).len() == t.len(),
        keeps_non_members(refilled(e, t, a), t, a),
        keeps_member_slots(refilled(e, t, a), t, a),
{
    lemma_refill_keeps_non_members(e, t, a);
    lemma_refill_member_slots(e, t, a);
}

/// A stream written into a text made only of members, with a symbol for every
/// slot, comes out as it is.
pub proof fn lemma_refill_full(s: Seq<char>, u: Seq<char>, a: Seq<char>)
    requires
        all_members(u, a),
        s.len() == u.len(),
    ensures
        refilled(s, u, a) == s,
    decreases u.len(),
{
    if u.len() > 0 {
        assert(a.contains(u[0]));
        assert(all_members(u.drop_first(), a)) by {
            assert forall|k: int| 0 <= k < u.drop_first().len() implies a.contains(
                #[trigger] u.drop_first()[k],
            ) by {
                assert(u.drop_first()[k] == u[k + 1]);
            }
        }
        lemma_refill_full(s.drop_first(), u.drop_first(), a);
        assert(seq![s[0]] + s.drop_first() =~= s);
    }
}

/// Refilling a text refilled with a long enough stream is the same as refilling
/// the text, for any stream of the same length.
pub proof fn lemma_refill_twice_long(s1: Seq<char>, s2: Seq<char>, t: Seq<char>, a: Seq<char>)
    requires
        all_members(s1, a),
        s1.len() >= members(t, a).len(),
        s2.len() == s1.len(),
    ensures
        refilled(s2, refilled(s1, t, a), a) == refilled(s2, t, a),
    decreases t.len(),
{
    if t.len() == 0 {
        lemma_refill_full(s2, s1, a);
    } else if !a.contains(t[0]) {
        lemma_refill_twice_long(s1, s2, t.drop_first(), a);
        let r = refilled(s1, t.drop_first(), a);
        assert((seq![t[0]] + r)[0] == t[0]);
        assert((seq![t[0]] + r).drop_first() =~= r);
    } else {
        assert(all_members(s1.drop_first(), a)) by {
            assert forall|k: int| 0 <= k < s1.drop_first().len() implies a.contains(
                #[trigger] s1.drop_first()[k],
            ) by {
                assert(s1.drop_first()[k] == s1[k + 1]);
            }
        }
        lemma_refill_twice_long(s1.drop_first(), s2.drop_first(), t.drop_first(), a);
        let r = refilled(s1.drop_first(), t.drop_first(), a);
        assert(a.contains(s1[0]));
        assert((seq![s1[0]] + r)[0] == s1[0]);
        assert((seq![s1[0]] + r).drop_first() =~= r);
    }
}

/// Refilling a text with its own members followed by more symbols gives the
/// text followed by those symbols.
pub proof fn lemma_refill_members_then(t: Seq<char>, e: Seq<char>, a: Seq<char>)
    ensures
        refilled(members(t, a) + e, t, a) == t + e,
    decreases t.len(),
{
    if t.len() == 0 {
        assert(members(t, a) + e =~= e);
        assert(t + e =~= e);
    } else {
        lemma_refill_members_then(t.drop_first(), e, a);
        if a.contains(t[0]) {
            assert((seq![t[0]] + members(t.drop_first(), a)) + e =~= seq![t[0]] + (members(
                t.drop_first(),
                a,
            ) + e));
            assert((seq![t[0]] + (members(t.drop_first(), a) + e)).drop_first() =~= members(
                t.drop_first(),
                a,
            ) + e);
        }
        assert(seq![t[0]] + (t.drop_first() + e) =~= t + e);
    }
}

/// Relies on `str::chars` collected into a `Vec`: the characters of `s`, in order.
#[verifier::external_body]
pub(crate) fn chars_of(s: &str) -> (r: Vec<char>)
    ensures
        r@ == s@,
{
    s.chars().collect()
}

/// Relies on `String: FromIterator<char>`: the string made of the characters of `v`.
#[verifier::external_body]
pub(crate) fn string_of(v: &Vec<char>) -> (r: String)
    ensures
        r@ == v@,
{
    v.iter().collect()
}

/// Whether `c` occurs in `s`.
pub(crate) fn contains_char(s: &Vec<char>, c: char) -> (r: bool)
    ensures
        r == s@.contains(c),
{
    let mut i: usize = 0;
    while i < s.len()
        invariant
            i <= s@.len(),
            forall|j: int| 0 <= j < i ==> s@[j] != c,
        decreases s.len() - i,
    {
        if s[i] == c {
            return true;
        }
        i = i + 1;
    }
    false
}

/// The members of `alpha` in `text`, in order.
pub(crate) fn members_of(text: &Vec<char>, alpha: &Vec<char>) -> (r: Vec<char>)
    ensures
        r@ == members(text@, alpha@),
{
    let mut out: Vec<char> = Vec::new();
    let mut i: usize = 0;
    proof {
        assert(text@.skip(0) =~= text@);
        assert(out@ + members(text@, alpha@) =~= members(text@, alpha@));
    }
    while i < text.len()
        invariant
            i <= text@.len(),
            out@ + members(text@.skip(i as int), alpha@) == members(text@, alpha@),
        decreases text.len() - i,
    {
        let c = text[i];
        proof {
            assert(text@.skip(i as int).drop_first() =~= text@.skip(i + 1));
        }
        if contains_char(alpha, c) {
            out.push(c);
            proof {
                assert(out@ + members(text@.skip(i + 1), alpha@) =~= members(text@, alpha@));
            }
        }
        i = i + 1;
    }
    proof {
        assert(text@.skip(i as int) =~= Seq::<char>::empty());
        assert(out@ + Seq::<char>::empty() =~= out@);
    }
    out
}

/// The characters of `input` that belong to `alphabet`, in order.
pub fn filter(input: &str, alphabet: &str) -> (r: String)
    ensures
        r@ == members(input@, alphabet@),
{
    let text = chars_of(input);
    let alpha = chars_of(alphabet);
    let kept = members_of(&text, &alpha);
    string_of(&kept)
}

/// Writes `stream` back into the skeleton of `template` (see [`refilled`]).
pub(crate) fn refill_chars(stream: &Vec<char>, template: &Vec<char>, alpha: &Vec<char>) -> (r: Vec<
    char,
>)
    ensures
        r@ == refilled(stream@, template@, alpha@),
{
    let mut out: Vec<char> = Vec::new();
    let mut i: usize = 0;
    let mut j: usize = 0;
    proof {
        assert(stream@.skip(0) =~= stream@);
        assert(template@.skip(0) =~= template@);
        assert(out@ + refilled(stream@, template@, alpha@) =~= refilled(stream@, template@, alpha@));
    }
    while j < template.len()
        invariant
            i <= stream@.len(),
            j <= template@.len(),
            out@ + refilled(stream@.skip(i as int), template@.skip(j as int), alpha@) == refilled(
                stream@,
                template@,
                alpha@,
            ),
        decreases template.len() - j,
    {
        let c = template[j];
        proof {
            assert(template@.skip(j as int).drop_first() =~= template@.skip(j + 1));
            assert(stream@.skip(i as int).len() > 0 ==> stream@.skip(i as int).drop_first()
                =~= stream@.skip(i + 1));
        }
        if !contains_char(alpha, c) {
            out.push(c);
            proof {
                let rest = refilled(stream@.skip(i as int), template@.skip(j + 1), alpha@);
                assert(out@ + rest =~= out@.drop_last() + (seq![c] + rest));
            }
        } else if i < stream.len() {
            let d = stream[i];
            out.push(d);
            proof {
                let rest = refilled(stream@.skip(i + 1), template@.skip(j + 1), alpha@);
                assert(out@ + rest =~= out@.drop_last() + (seq![d] + rest));
            }
            i = i + 1;
        }
        j = j + 1;
    }
    proof {
        assert(template@.skip(j as int) =~= Seq::<char>::empty());
    }
    while i < stream.len()
        invariant
            i <= stream@.len(),
            out@ + stream@.skip(i as int) == refilled(stream@, template@, alpha@),
        decreases stream.len() - i,
    {
        let d = stream[i];
        out.push(d);
        proof {
            assert(out@ + stream@.skip(i + 1) =~= out@.drop_last() + stream@.skip(i as int));
        }
        i = i + 1;
    }
    proof {
        assert(out@ + stream@.skip(i as int) =~= out@);
    }
    out
}

/// Writes the characters of `input` into the member slots of `template`, keeps
/// the template's other characters in place, and appends what `input` has left.
pub fn refill(input: &str, template: &str, alphabet: &str) -> (r: String)
    ensures
        r@ == refilled(input@, template@, alphabet@),
{
    let stream = chars_of(input);
    let skeleton = chars_of(template);
    let alpha = chars_of(alphabet);
    let out = refill_chars(&stream, &skeleton, &alpha);
    string_of(&out)
}

/// The first position of `c` in `alpha`, if it occurs there.
pub(crate) fn position(alpha: &Vec<char>, c: char) -> (r: Option<usize>)
    ensures
        r is None <==> !alpha@.contains(c),
        r matches Some(i) ==> i < alpha@.len() && alpha@[i as int] == c,
        r matches Some(i) ==> (alpha@.no_duplicates() ==> i == index_of(alpha@, c)),
{
    let mut i: usize = 0;
    while i < alpha.len()
        invariant
            i <= alpha@.len(),
            forall|j: int| 0 <= j < i ==> alpha@[j] != c,
        decreases alpha.len() - i,
    {
        if alpha[i] == c {
            proof {
                assert(alpha@.contains(c));
                if alpha@.no_duplicates() {
                    lemma_index_of(alpha@, c);
                }
            }
            return Some(i);
        }
        i = i + 1;
    }
    None
}

/// The position of a member in a valid alphabet.
pub(crate) fn index_in(alpha: &Vec<char>, c: char) -> (r: usize)
    requires
        alpha@.no_duplicates(),
        alpha@.contains(c),
    ensures
        r as int == index_of(alpha@, c),
        r < alpha@.len(),
{
    match position(alpha, c) {
        Some(i) => i,
        None => 0,
    }
}

/// The two directions every cipher offers.
pub trait Cipher {
    /// Turns plaintext into ciphertext.
    fn encrypt(&self, plaintext: &str) -> String;

    /// Turns ciphertext back into plaintext.
    fn decrypt(&self, ciphertxt: &str) -> String;
}

/// Whether no character of `s` repeats.
pub(crate) fn is_unique(s: &Vec<char>) -> (r: bool)
    ensures
        r == s@.no_duplicates(),
{
    let mut i: usize = 0;
    while i < s.len()
        invariant
            i <= s@.len(),
            forall|p: int, q: int| 0 <= p < i && 0 <= q < i && p != q ==> s@[p] != s@[q],
        decreases s.len() - i,
    {
        let mut j: usize = 0;
        while j < i
            invariant
                i < s@.len(),
                j <= i,
                forall|q: int| 0 <= q < j ==> s@[q] != s@[i as int],
            decreases i - j,
        {
            if s[j] == s[i] {
                return false;
            }
            j = j + 1;
        }
        i = i + 1;
    }
    true
}

/// Succeeds exactly when no symbol of `alphabet` repeats.
pub fn check_unique(alphabet: &str) -> (r: Result<(), CipherError>)
    ensures
        r is Ok <==> alphabet@.no_duplicates(),
        r is Err ==> r == Err::<(), CipherError>(CipherError::DuplicateAlphabetSymbol),
{
    let symbols = chars_of(alphabet);
    if is_unique(&symbols) {
        Ok(())
    } else {
        Err(CipherError::DuplicateAlphabetSymbol)
    }
}

/// The symbols of `alphabet`, once checked to form a valid alphabet.
pub(crate) fn build_alphabet(alphabet: &str) -> (r: Result<Vec<char>, CipherError>)
    ensures
        r is Ok <==> valid_alphabet(alphabet@),
        r matches Ok(v) ==> v@ == alphabet@,
        r matches Err(e) ==> e == alphabet_error(alphabet@),
{
    let symbols = chars_of(alphabet);
    if symbols.len() == 0 {
        return Err(CipherError::EmptyAlphabet);
    }
    if !is_unique(&symbols) {
        return Err(CipherError::DuplicateAlphabetSymbol);
    }
    Ok(symbols)
}

/// The symbols of `key`, once checked to be a non-empty string of members of `alpha`.
pub(crate) fn build_key(key: &str, alpha: &Vec<char>) -> (r: Result<Vec<char>, CipherError>)
    ensures
        r is Ok <==> valid_key(key@, alpha@),
        r matches Ok(v) ==> v@ == key@,
        r matches Err(e) ==> e == key_error(key@),
{
    let symbols = chars_of(key);
    if symbols.len() == 0 {
        return Err(CipherError::EmptyKeyword);
    }
    let mut i: usize = 0;
    while i < symbols.len()
        invariant
            i <= symbols@.len(),
            symbols@ == key@,
            forall|j: int| 0 <= j < i ==> alpha@.contains(#[trigger] symbols@[j]),
        decreases symbols.len() - i,
    {
        if !contains_char(alpha, symbols[i]) {
            return Err(CipherError::InvalidKeywordCharacter);
        }
        i = i + 1;
    }
    Ok(symbols)
}

/// `x` reduced modulo `n` into `[0, n)`.
pub(crate) fn reduce(x: isize, n: usize) -> (r: usize)
    requires
        n > 0,
    ensures
        r as int == x as int % n as int,
{
    if x >= 0 {
        (x as usize) % n
    } else {
        let p: u128 = (0i128 - x as i128) as u128;
        let rem: u128 = p % (n as u128);
        let ghost q: int = p as int / n as int;
        proof {
            lemma_fundamental_div_mod(p as int, n as int);
            assert(p as int == q * n + rem) by (nonlinear_arith)
                requires
                    p as int == n * q + rem,
            ;
        }
        if rem == 0 {
            proof {
                assert(x as int == (-q) * n as int) by (nonlinear_arith)
                    requires
                        x as int == -(p as int),
                        p as int == q * n + rem,
                        rem == 0,
                ;
                lemma_mod_multiples_basic(-q, n as int);
            }
            0
        } else {
            proof {
                assert(x as int == (-q - 1) * n as int + (n - rem)) by (nonlinear_arith)
                    requires
                        x as int == -(p as int),
                        p as int == q * n + rem,
                ;
                lemma_fundamental_div_mod_converse(x as int, n as int, -q - 1, n - rem);
            }
            n - rem as usize
        }
    }
}

/// The smallest `i` in `[0, n)` with `(a * i) mod n == 1`, if any.
pub(crate) fn least_inverse(a: usize, n: usize) -> (r: Option<usize>)
    requires
        a < n,
    ensures
        r matches Some(i) ==> is_least_inverse(a as int, i as int, n as int),
        r is None ==> !has_inverse(a as int, n as int),
{
    let mut i: usize = 0;
    while i < n
        invariant
            a < n,
            i <= n,
            forall|j: int| 0 <= j < i ==> !is_inverse(a as int, j, n as int),
        decreases n - i,
    {
        proof {
            let bound: int = 0x1_0000_0000_0000_0000;
            assert((a as int) * (i as int) < bound * bound) by (nonlinear_arith)
                requires
                    0 <= a < bound,
                    0 <= i < bound,
            ;
        }
        let prod: u128 = a as u128 * i as u128;
        if prod % (n as u128) == 1 {
            return Some(i);
        }
        i = i + 1;
    }
    None
}

/// The smallest `i` in `[0, m)` with `(a * i) mod m == 1`.
pub fn mult_inv(a: isize, m: isize) -> (r: Result<isize, CipherError>)
    ensures
        r matches Ok(i) ==> is_least_inverse(a as int, i as int, m as int),
        r is Ok <==> has_inverse(a as int, m as int),
        r is Err ==> r == Err::<isize, CipherError>(CipherError::NoModularInverse),
{
    if m <= 0 {
        return Err(CipherError::NoModularInverse);
    }
    let n = m as usize;
    let am = reduce(a, n);
    let found = least_inverse(am, n);
    proof {
        assert forall|j: int| 0 <= j < n implies is_inverse(am as int, j, n as int) == is_inverse(
            a as int,
            j,
            n as int,
        ) by {
            vstd::arithmetic::div_mod::lemma_mul_mod_noop_left(a as int, j, n as int);
        }
    }
    match found {
        Some(i) => Ok(i as isize),
        None => Err(CipherError::NoModularInverse),
    }
}

/// The positions of the members of `text` in `alpha`.
pub(crate) fn positions_of(text: &Vec<char>, alpha: &Vec<char>) -> (r: Vec<usize>)
    requires
        alpha@.no_duplicates(),
    ensures
        widen(r@) == encoded(members(text@, alpha@), alpha@),
        forall|k: int| 0 <= k < r@.len() ==> #[trigger] r@[k] < alpha@.len(),
{
    let mut out: Vec<usize> = Vec::new();
    let mut i: usize = 0;
    proof {
        assert(text@.skip(0) =~= text@);
        assert(widen(out@) + encoded(members(text@, alpha@), alpha@) =~= encoded(
            members(text@, alpha@),
            alpha@,
        ));
    }
    while i < text.len()
        invariant
            alpha@.no_duplicates(),
            i <= text@.len(),
            widen(out@) + encoded(members(text@.skip(i as int), alpha@), alpha@) == encoded(
                members(text@, alpha@),
                alpha@,
            ),
            forall|k: int| 0 <= k < out@.len() ==> #[trigger] out@[k] < alpha@.len(),
        decreases text.len() - i,
    {
        let c = text[i];
        proof {
            assert(text@.skip(i as int).drop_first() =~= text@.skip(i + 1));
        }
        match position(alpha, c) {
            Some(p) => {
                out.push(p);
                proof {
                    let rest = encoded(members(text@.skip(i + 1), alpha@), alpha@);
                    assert(encoded(members(text@.skip(i as int), alpha@), alpha@) =~= seq![
                        p as int,
                    ] + rest);
                    assert(widen(out@) =~= widen(out@.drop_last()) + seq![p as int]);
                    assert(widen(out@) + rest =~= widen(out@.drop_last()) + (seq![p as int]
                        + rest));
                }
            },
            None => {},
        }
        i = i + 1;
    }
    proof {
        assert(text@.skip(i as int) =~= Seq::<char>::empty());
        assert(widen(out@) + Seq::<int>::empty() =~= widen(out@));
    }
    out
}

/// The symbols at the positions of `idx` that lie inside `alpha`.
pub(crate) fn symbols_at(idx: &Vec<usize>, alpha: &Vec<char>) -> (r: Vec<char>)
    ensures
        r@ == decoded(widen(idx@), alpha@),
{
    let mut out: Vec<char> = Vec::new();
    let mut i: usize = 0;
    proof {
        assert(widen(idx@).skip(0) =~= widen(idx@));
        assert(out@ + decoded(widen(idx@), alpha@) =~= decoded(widen(idx@), alpha@));
    }
    while i < idx.len()
        invariant
            i <= idx@.len(),
            out@ + decoded(widen(idx@).skip(i as int), alpha@) == decoded(widen(idx@), alpha@),
        decreases idx.len() - i,
    {
        let x = idx[i];
        proof {
            assert(widen(idx@).skip(i as int).drop_first() =~= widen(idx@).skip(i + 1));
            assert(widen(idx@).skip(i as int)[0] == x as int);
        }
        if x < alpha.len() {
            out.push(alpha[x]);
            proof {
                let rest = decoded(widen(idx@).skip(i + 1), alpha@);
                assert(out@ + rest =~= out@.drop_last() + (seq![alpha@[x as int]] + rest));
            }
        }
        i = i + 1;
    }
    proof {
        assert(widen(idx@).skip(i as int) =~= Seq::<int>::empty());
        assert(out@ + Seq::<char>::empty() =~= out@);
    }
    out
}

/// The positions in `alphabet` of the members of `input`.
pub fn char_index(input: &str, alphabet: &str) -> (r: Vec<u32>)
    requires
        alphabet@.no_duplicates(),
        alphabet@.len() <= u32::MAX,
    ensures
        widen32(r@) == encoded(members(input@, alphabet@), alphabet@),
{
    let text = chars_of(input);
    let alpha = chars_of(alphabet);
    let wide = positions_of(&text, &alpha);
    let mut out: Vec<u32> = Vec::new();
    let mut i: usize = 0;
    while i < wide.len()
        invariant
            i <= wide@.len(),
            alpha@.len() <= u32::MAX,
            forall|k: int| 0 <= k < wide@.len() ==> #[trigger] wide@[k] < alpha@.len(),
            out@.len() == i,
            forall|k: int| 0 <= k < i ==> #[trigger] out@[k] as int == wide@[k] as int,
        decreases wide.len() - i,
    {
        out.push(wide[i] as u32);
        i = i + 1;
    }
    proof {
        assert(widen32(out@) =~= widen(wide@));
    }
    out
}

/// The symbols of `alphabet` at the positions of `indices`; positions past its
/// end are dropped.
pub fn alphabetize(indices: Vec<u32>, alphabet: &str) -> (r: String)
    ensures
        r@ == decoded(widen32(indices@), alphabet@),
{
    let alpha = chars_of(alphabet);
    let mut wide: Vec<usize> = Vec::new();
    let mut i: usize = 0;
    while i < indices.len()
        invariant
            i <= indices@.len(),
            wide@.len() == i,
            forall|k: int| 0 <= k < i ==> #[trigger] wide@[k] as int == indices@[k] as int,
        decreases indices.len() - i,
    {
        wide.push(indices[i] as usize);
        i = i + 1;
    }
    proof {
        assert(widen(wide@) =~= widen32(indices@));
    }
    let symbols = symbols_at(&wide, &alpha);
    string_of(&symbols)
}

} // verus!
