//! Caesar shift applied character by character; non-members pass through.
use crate::common::{
    alphabet_error, build_alphabet, chars_of, index_in, index_of, keeps_member_slots,
    keeps_non_members,
    lemma_index_of, lemma_index_of_at, string_of, valid_alphabet, Cipher, CipherError, ENGLISH,
};
use vstd::arithmetic::div_mod::{
    lemma_add_mod_noop, lemma_fundamental_div_mod_converse, lemma_mod_bound, lemma_small_mod,
};
use vstd::prelude::*;

verus! {

/// A member of `a` moved `k` places along it (cyclically); other characters unchanged.
pub open spec fn caesar_char(a: Seq<char>, k: int, c: char) -> char {
    if a.contains(c) {
        a[(index_of(a, c) + k) % (a.len() as int)]
    } else {
        c
    }
}

/// Every character of `t` put through [`caesar_char`].
pub open spec fn caesar_text(a: Seq<char>, k: int, t: Seq<char>) -> Seq<char> {
    t.map_values(|c: char| caesar_char(a, k, c))
}

/// A Caesar shift over an alphabet.
pub struct Caesar {
    alphabet: Vec<char>,
    offset: usize,
}

impl Caesar {
    /// Well-formed: a valid alphabet and an offset below its size.
    #[verifier::type_invariant]
    pub closed spec fn inv(&self) -> bool {
        valid_alphabet(self.alphabet@) && self.offset < self.alphabet@.len()
    }

    /// The alphabet.
    pub closed spec fn alpha(&self) -> Seq<char> {
        self.alphabet@
    }

    /// The shift, reduced modulo the alphabet size.
    pub closed spec fn offset(&self) -> int {
        self.offset as int
    }

    /// Encryption of `t`.
    pub open spec fn encrypt_spec(&self, t: Seq<char>) -> Seq<char> {
        caesar_text(self.alpha(), self.offset(), t)
    }

    /// Decryption of `t`.
    pub open spec fn decrypt_spec(&self, t: Seq<char>) -> Seq<char> {
        caesar_text(self.alpha(), -self.offset(), t)
    }

    /// Builds the shift by `offset` places; fails on an invalid alphabet.
    pub fn new(alphabet: &str, offset: u32) -> (r: Result<Self, CipherError>)
        ensures
            r is Ok <==> valid_alphabet(alphabet@),
            r matches Err(e) ==> e == alphabet_error(alphabet@),
            r matches Ok(c) ==> c.inv() && c.alpha() == alphabet@ && c.offset() == offset as int
                % (alphabet@.len() as int),
    {
        let symbols = match build_alphabet(alphabet) {
            Ok(v) => v,
            Err(e) => {
                return Err(e);
            },
        };
        let n = symbols.len();
        let offset = (offset as usize) % n;
        Ok(Caesar { alphabet: symbols, offset })
    }

    /// ROT13: a shift by 13 over the Latin alphabet.
    pub fn new_rot13() -> (r: Result<Self, CipherError>)
        ensures
            r matches Ok(c) && c.inv() && c.alpha() == ENGLISH@ && c.offset() == 13,
    {
        proof {
            reveal_strlit("ABCDEFGHIJKLMNOPQRSTUVWXYZ");
        }
        let r = Caesar::new(ENGLISH, 13);
        proof {
            assert(valid_alphabet(ENGLISH@));
            lemma_small_mod(13, 26);
        }
        r
    }

    /// Moves every member `shift` places along the alphabet.
    fn substitute(&self, input: &str, shift: usize) -> (r: String)
        requires
            self.inv(),
            shift <= self.alpha().len(),
        ensures
            r@ == caesar_text(self.alpha(), shift as int, input@),
    {
        let text = chars_of(input);
        let n = self.alphabet.len();
        let ghost a = self.alphabet@;
        let mut out: Vec<char> = Vec::new();
        let mut i: usize = 0;
        while i < text.len()
            invariant
                self.inv(),
                a == self.alphabet@,
                n == a.len(),
                shift <= n,
                i <= text@.len(),
                out@.len() == i,
                forall|j: int| 0 <= j < i ==> #[trigger] out@[j] == caesar_char(a, shift as int, text@[j]),
            decreases text.len() - i,
        {
            let c = text[i];
            if crate::common::contains_char(&self.alphabet, c) {
                let x = index_in(&self.alphabet, c);
                let y: usize = if x >= n - shift {
                    x - (n - shift)
                } else {
                    x + shift
                };
                proof {
                    if x >= n - shift {
                        lemma_fundamental_div_mod_converse(x + shift, n as int, 1, y as int);
                    } else {
                        lemma_small_mod(y as nat, n as nat);
                    }
                }
                out.push(self.alphabet[y]);
            } else {
                out.push(c);
            }
            i = i + 1;
        }
        proof {
            assert(out@ =~= caesar_text(a, shift as int, text@));
        }
        string_of(&out)
    }
}

/// A shift by `k` leaves the text length and every non-member unchanged, and
/// turns every member into a member.
pub proof fn lemma_caesar_keeps_non_members(a: Seq<char>, k: int, t: Seq<char>)
    requires
        a.len() > 0,
    ensures
        caesar_text(a, k, t).len() == t.len(),
        keeps_non_members(caesar_text(a, k, t), t, a),
        keeps_member_slots(caesar_text(a, k, t), t, a),
{
    let n = a.len() as int;
    assert forall|j: int| 0 <= j < t.len() && a.contains(#[trigger] t[j]) implies j < caesar_text(
        a,
        k,
        t,
    ).len() && a.contains(caesar_text(a, k, t)[j]) by {
        let x = index_of(a, t[j]);
        lemma_mod_bound(x + k, n);
        assert(caesar_text(a, k, t)[j] == a[(x + k) % n]);
    }
}

/// A shift by `k` followed by a shift by `-k` gives the text back.
pub proof fn lemma_caesar_shift_back(a: Seq<char>, k: int, t: Seq<char>)
    requires
        valid_alphabet(a),
    ensures
        caesar_text(a, -k, caesar_text(a, k, t)) == t,
{
    let n = a.len() as int;
    assert forall|j: int| 0 <= j < t.len() implies #[trigger] caesar_char(
        a,
        -k,
        caesar_char(a, k, t[j]),
    ) == t[j] by {
        let c = t[j];
        if a.contains(c) {
            lemma_index_of(a, c);
            let x = index_of(a, c);
            let y = (x + k) % n;
            lemma_mod_bound(x + k, n);
            lemma_index_of_at(a, y);
            lemma_small_mod(y as nat, n as nat);
            lemma_add_mod_noop(x + k, -k, n);
            lemma_add_mod_noop(y, -k, n);
            lemma_small_mod(x as nat, n as nat);
            assert(x + k + -k == x);
        }
    }
    assert(caesar_text(a, -k, caesar_text(a, k, t)) =~= t);
}

impl Caesar {
    /// Decrypting an encrypted text gives it back.
    pub proof fn lemma_round_trip(&self, t: Seq<char>)
        requires
            self.inv(),
        ensures
            self.decrypt_spec(self.encrypt_spec(t)) == t,
    {
        lemma_caesar_shift_back(self.alpha(), self.offset(), t);
    }

    /// Over a 26-symbol alphabet, a shift by 13 undoes itself: encrypting twice
    /// gives the text back.
    pub proof fn lemma_rot13_involution(&self, t: Seq<char>)
        requires
            self.inv(),
            self.alpha().len() == 26,
            self.offset() == 13,
        ensures
            self.encrypt_spec(self.encrypt_spec(t)) == t,
    {
        let a = self.alpha();
        lemma_caesar_shift_back(a, 13, t);
        assert forall|c: char| #[trigger] caesar_char(a, 13, c) == caesar_char(a, -13, c) by {
            if a.contains(c) {
                let x = index_of(a, c);
                vstd::arithmetic::div_mod::lemma_mod_add_multiples_vanish(x - 13, 26);
            }
        }
        assert(caesar_text(a, 13, caesar_text(a, 13, t)) =~= caesar_text(
            a,
            -13,
            caesar_text(a, 13, t),
        ));
    }
}

impl Cipher for Caesar {
    fn encrypt(&self, plaintext: &str) -> (r: String)
        ensures
            r@ == self.encrypt_spec(plaintext@),
            r@.len() == plaintext@.len(),
            keeps_non_members(r@, plaintext@, self.alpha()),
            keeps_member_slots(r@, plaintext@, self.alpha()),
    {
        proof {
            use_type_invariant(self);
            lemma_caesar_keeps_non_members(self.alpha(), self.offset(), plaintext@);
        }
        self.substitute(plaintext, self.offset)
    }

    fn decrypt(&self, ciphertext: &str) -> (r: String)
        ensures
            r@ == self.decrypt_spec(ciphertext@),
            r@.len() == ciphertext@.len(),
            keeps_non_members(r@, ciphertext@, self.alpha()),
            keeps_member_slots(r@, ciphertext@, self.alpha()),
    {
        proof {
            use_type_invariant(self);
            let a = self.alpha();
            let n = a.len() as int;
            let k = self.offset();
            lemma_caesar_keeps_non_members(a, -k, ciphertext@);
            let back: int = n - k;
            assert forall|c: char| #[trigger] caesar_char(a, back, c) == caesar_char(a, -k, c) by {
                if a.contains(c) {
                    let x = index_of(a, c);
                    vstd::arithmetic::div_mod::lemma_mod_add_multiples_vanish(x - k, n);
                }
            }
            assert(caesar_text(a, back, ciphertext@) =~= caesar_text(a, -k, ciphertext@));
        }
        let n = self.alphabet.len();
        self.substitute(ciphertext, n - self.offset)
    }
}

} // verus!
