//! Affine substitution `x -> factor * x + offset (mod N)`, with Caesar, Atbash and
//! ROT13 as special cases.
use crate::common::{
    all_members, alphabet_error, build_alphabet, chars_of, has_inverse, index_in, index_of,
    is_inverse, is_least_inverse, lemma_index_of, lemma_index_of_at, lemma_members_are_members,
    lemma_refill_round_trip, lemma_substitution_keeps_non_members, least_inverse, members,
    members_of, reduce, refill_chars, refilled, string_of, valid_alphabet, Cipher, CipherError,
    ENGLISH, keeps_non_members, keeps_member_slots,
};
use vstd::arithmetic::div_mod::{
    lemma_add_mod_noop, lemma_fundamental_div_mod_converse, lemma_mod_pos_bound, lemma_mul_mod_noop_left, lemma_mul_mod_noop_right,
    lemma_mod_bound, lemma_small_mod, lemma_sub_mod_noop,
};
use vstd::prelude::*;

verus! {

/// The image of member `c` under encryption.
pub open spec fn affine_shift(a: Seq<char>, factor: int, offset: int, c: char) -> char {
    a[(factor * index_of(a, c) + offset) % (a.len() as int)]
}

/// The image of member `c` under decryption, with `facinv` the inverse of the factor.
pub open spec fn affine_unshift(a: Seq<char>, facinv: int, offset: int, c: char) -> char {
    a[(facinv * (index_of(a, c) - offset)) % (a.len() as int)]
}

/// Affine encryption of text `t` over alphabet `a`.
pub open spec fn affine_encrypt(a: Seq<char>, factor: int, offset: int, t: Seq<char>) -> Seq<char> {
    refilled(members(t, a).map_values(|c: char| affine_shift(a, factor, offset, c)), t, a)
}

/// Affine decryption of text `t` over alphabet `a`.
pub open spec fn affine_decrypt(a: Seq<char>, facinv: int, offset: int, t: Seq<char>) -> Seq<
    char,
> {
    refilled(members(t, a).map_values(|c: char| affine_unshift(a, facinv, offset, c)), t, a)
}

/// An affine cipher over an alphabet.
#[derive(Debug)]
pub struct Affine {
    alphabet: Vec<char>,
    factor: isize,
    offset: isize,
    factor_mod: usize,
    offset_mod: usize,
    facinv: usize,
}

impl Affine {
    /// Well-formed: a valid alphabet, the reduced factor and offset, and the
    /// least inverse of the factor.
    #[verifier::type_invariant]
    pub closed spec fn inv(&self) -> bool {
        let n = self.alphabet@.len() as int;
        &&& valid_alphabet(self.alphabet@)
        &&& self.factor_mod as int == self.factor as int % n
        &&& self.offset_mod as int == self.offset as int % n
        &&& is_least_inverse(self.factor as int, self.facinv as int, n)
    }

    /// The alphabet.
    pub closed spec fn alpha(&self) -> Seq<char> {
        self.alphabet@
    }

    /// The multiplicative factor.
    pub closed spec fn factor(&self) -> int {
        self.factor as int
    }

    /// The additive offset.
    pub closed spec fn offset(&self) -> int {
        self.offset as int
    }

    /// The least inverse of the factor modulo the alphabet size.
    pub closed spec fn facinv(&self) -> int {
        self.facinv as int
    }

    /// Encryption of `t`.
    pub open spec fn encrypt_spec(&self, t: Seq<char>) -> Seq<char> {
        affine_encrypt(self.alpha(), self.factor(), self.offset(), t)
    }

    /// Decryption of `t`.
    pub open spec fn decrypt_spec(&self, t: Seq<char>) -> Seq<char> {
        affine_decrypt(self.alpha(), self.facinv(), self.offset(), t)
    }

    /// Builds the cipher `x -> factor * x + offset (mod N)`; fails on an invalid
    /// alphabet, or when `factor` has no inverse modulo the alphabet size.
    pub fn new(alphabet: &str, factor: isize, offset: isize) -> (r: Result<Self, CipherError>)
        ensures
            r is Ok <==> valid_alphabet(alphabet@) && has_inverse(
                factor as int,
                alphabet@.len() as int,
            ),
            r matches Err(e) ==> e == (if !valid_alphabet(alphabet@) {
                alphabet_error(alphabet@)
            } else {
                CipherError::NoModularInverse
            }),
            r matches Ok(c) ==> {
                &&& c.inv()
                &&& c.alpha() == alphabet@
                &&& c.factor() == factor
                &&& c.offset() == offset
                &&& is_least_inverse(factor as int, c.facinv(), alphabet@.len() as int)
            },
    {
        let symbols = match build_alphabet(alphabet) {
            Ok(v) => v,
            Err(e) => {
                return Err(e);
            },
        };
        let n = symbols.len();
        let factor_mod = reduce(factor, n);
        let offset_mod = reduce(offset, n);
        proof {
            assert forall|j: int| 0 <= j < n implies is_inverse(factor_mod as int, j, n as int)
                == is_inverse(factor as int, j, n as int) by {
                lemma_mul_mod_noop_left(factor as int, j, n as int);
            }
        }
        match least_inverse(factor_mod, n) {
            Some(facinv) => Ok(
                Affine { alphabet: symbols, factor, offset, factor_mod, offset_mod, facinv },
            ),
            None => Err(CipherError::NoModularInverse),
        }
    }

    /// Atbash: the alphabet read backwards (`factor = -1`, `offset = -1`). A
    /// one-symbol alphabet gives `NoModularInverse`, as -1 has no inverse modulo 1.
    pub fn new_atbash(alphabet: &str) -> (r: Result<Self, CipherError>)
        ensures
            r is Ok <==> valid_alphabet(alphabet@) && alphabet@.len() > 1,
            r matches Err(e) ==> e == (if !valid_alphabet(alphabet@) {
                alphabet_error(alphabet@)
            } else {
                CipherError::NoModularInverse
            }),
            r matches Ok(c) ==> c.inv() && c.alpha() == alphabet@ && c.factor() == -1
                && c.offset() == -1,
    {
        proof {
            let n = alphabet@.len() as int;
            if n > 1 {
                lemma_fundamental_div_mod_converse(1 - n, n, -1, 1);
                assert(is_inverse(-1, n - 1, n));
            } else if n == 1 {
                assert(!has_inverse(-1, 1));
            }
        }
        Self::new(alphabet, -1, -1)
    }

    /// Caesar: a shift by `shift` positions (`factor = 1`). A one-symbol alphabet
    /// gives `NoModularInverse`, as 1 has no inverse modulo 1.
    pub fn new_caesar(alphabet: &str, shift: isize) -> (r: Result<Self, CipherError>)
        ensures
            r is Ok <==> valid_alphabet(alphabet@) && alphabet@.len() > 1,
            r matches Err(e) ==> e == (if !valid_alphabet(alphabet@) {
                alphabet_error(alphabet@)
            } else {
                CipherError::NoModularInverse
            }),
            r matches Ok(c) ==> c.inv() && c.alpha() == alphabet@ && c.factor() == 1
                && c.offset() == shift,
    {
        proof {
            let n = alphabet@.len() as int;
            if n > 1 {
                lemma_small_mod(1, n as nat);
                assert(is_inverse(1, 1, n));
            } else if n == 1 {
                assert(!has_inverse(1, 1));
            }
        }
        Self::new(alphabet, 1, shift)
    }

    /// ROT13: Caesar with shift 13 over the Latin alphabet.
    pub fn new_rot13() -> (r: Result<Self, CipherError>)
        ensures
            r matches Ok(c) && c.inv() && c.alpha() == ENGLISH@ && c.factor() == 1 && c.offset()
                == 13,
    {
        proof {
            reveal_strlit("ABCDEFGHIJKLMNOPQRSTUVWXYZ");
        }
        let r = Self::new_caesar(ENGLISH, 13);
        proof {
            assert(valid_alphabet(ENGLISH@));
        }
        r
    }

    fn substitute(&self, input: &str, decrypt: bool) -> (r: String)
        ensures
            !decrypt ==> r@ == self.encrypt_spec(input@),
            decrypt ==> r@ == self.decrypt_spec(input@),
    {
        proof {
            use_type_invariant(self);
        }
        let text = chars_of(input);
        let stream = members_of(&text, &self.alphabet);
        let n = self.alphabet.len();
        let ghost a = self.alphabet@;
        proof {
            lemma_members_are_members(text@, a);
        }
        let mut out: Vec<char> = Vec::new();
        let mut k: usize = 0;
        while k < stream.len()
            invariant
                self.inv(),
                a == self.alphabet@,
                n == a.len(),
                stream@ == members(input@, a),
                all_members(stream@, a),
                k <= stream@.len(),
                out@.len() == k,
                forall|j: int|
                    0 <= j < k ==> #[trigger] out@[j] == (if decrypt {
                        affine_unshift(a, self.facinv as int, self.offset as int, stream@[j])
                    } else {
                        affine_shift(a, self.factor as int, self.offset as int, stream@[j])
                    }),
            decreases stream.len() - k,
        {
            proof {
                assert(a.contains(stream@[k as int]));
            }
            let x = index_in(&self.alphabet, stream[k]);
            let nn = n as u128;
            proof {
                let bound: int = 0x1_0000_0000_0000_0000;
                assert((self.facinv as int) * (x as int) < bound * bound) by (nonlinear_arith)
                    requires
                        0 <= self.facinv < bound,
                        0 <= x < bound,
                ;
                assert((self.factor_mod as int) * (x as int) + (self.offset_mod as int) < bound
                    * bound) by (nonlinear_arith)
                    requires
                        0 <= self.factor_mod < n,
                        0 <= self.offset_mod < n,
                        0 <= x < n,
                        n < bound,
                ;
            }
            let y: usize = if decrypt {
                let t: u128 = (x as u128 + nn - self.offset_mod as u128) % nn;
                proof {
                    assert((self.facinv as int) * (t as int) < 0x1_0000_0000_0000_0000int
                        * 0x1_0000_0000_0000_0000int) by (nonlinear_arith)
                        requires
                            0 <= self.facinv < 0x1_0000_0000_0000_0000int,
                            0 <= t < n,
                            n < 0x1_0000_0000_0000_0000int,
                    ;
                }
                ((self.facinv as u128 * t) % nn) as usize
            } else {
                ((self.factor_mod as u128 * x as u128 + self.offset_mod as u128) % nn) as usize
            };
            proof {
                let ni = n as int;
                let xi = x as int;
                if decrypt {
                    let o = self.offset as int;
                    let t = (xi + ni - self.offset_mod as int) % ni;
                    lemma_mod_pos_bound(xi + ni - self.offset_mod as int, ni);
                    vstd::arithmetic::div_mod::lemma_mod_add_multiples_vanish(
                        xi - self.offset_mod as int,
                        ni,
                    );
                    lemma_small_mod(self.offset_mod as nat, ni as nat);
                    lemma_sub_mod_noop(xi, o, ni);
                    lemma_sub_mod_noop(xi, self.offset_mod as int, ni);
                    lemma_small_mod(xi as nat, ni as nat);
                    assert(t == (xi - o) % ni);
                    lemma_mul_mod_noop_right(self.facinv as int, xi - o, ni);
                    assert(y as int == (self.facinv as int * (xi - o)) % ni);
                } else {
                    let f = self.factor as int;
                    let o = self.offset as int;
                    lemma_add_mod_noop(f * xi, o, ni);
                    lemma_add_mod_noop(self.factor_mod as int * xi, self.offset_mod as int, ni);
                    lemma_mul_mod_noop_left(f, xi, ni);
                    lemma_small_mod(self.offset_mod as nat, ni as nat);
                    assert(y as int == (f * xi + o) % ni);
                }
                lemma_mod_pos_bound(y as int, ni);
            }
            out.push(self.alphabet[y]);
            k = k + 1;
        }
        proof {
            if decrypt {
                assert(out@ =~= stream@.map_values(
                    |c: char| affine_unshift(a, self.facinv as int, self.offset as int, c),
                ));
            } else {
                assert(out@ =~= stream@.map_values(
                    |c: char| affine_shift(a, self.factor as int, self.offset as int, c),
                ));
            }
        }
        let filled = refill_chars(&out, &text, &self.alphabet);
        string_of(&filled)
    }
}

/// Decryption undoes encryption on a single member, when `facinv` is an inverse
/// of `factor`.
pub proof fn lemma_affine_char_round_trip(
    a: Seq<char>,
    factor: int,
    facinv: int,
    offset: int,
    c: char,
)
    requires
        valid_alphabet(a),
        a.contains(c),
        is_inverse(factor, facinv, a.len() as int),
    ensures
        a.contains(affine_shift(a, factor, offset, c)),
        affine_unshift(a, facinv, offset, affine_shift(a, factor, offset, c)) == c,
{
    let n = a.len() as int;
    lemma_index_of(a, c);
    let x = index_of(a, c);
    let y = (factor * x + offset) % n;
    lemma_mod_bound(factor * x + offset, n);
    lemma_index_of_at(a, y);
    lemma_small_mod(y as nat, n as nat);
    lemma_sub_mod_noop(y, offset, n);
    lemma_sub_mod_noop(factor * x + offset, offset, n);
    assert((y - offset) % n == (factor * x) % n);
    lemma_mul_mod_noop_right(facinv, y - offset, n);
    lemma_mul_mod_noop_right(facinv, factor * x, n);
    assert(facinv * (factor * x) == (factor * facinv) * x) by (nonlinear_arith);
    lemma_mul_mod_noop_left(factor * facinv, x, n);
    lemma_small_mod(x as nat, n as nat);
    assert((facinv * (y - offset)) % n == x);
}

/// Both affine maps send every character to a member of a non-empty alphabet.
pub proof fn lemma_affine_members(a: Seq<char>, factor: int, facinv: int, offset: int, m: Seq<char>)
    requires
        a.len() > 0,
    ensures
        all_members(m.map_values(|c: char| affine_shift(a, factor, offset, c)), a),
        all_members(m.map_values(|c: char| affine_unshift(a, facinv, offset, c)), a),
{
    let n = a.len() as int;
    assert forall|k: int| 0 <= k < m.len() implies #[trigger] a.contains(
        affine_shift(a, factor, offset, m[k]),
    ) && a.contains(affine_unshift(a, facinv, offset, m[k])) by {
        let x = index_of(a, m[k]);
        lemma_mod_bound(factor * x + offset, n);
        lemma_mod_bound(facinv * (x - offset), n);
        assert(a[(factor * x + offset) % n] == affine_shift(a, factor, offset, m[k]));
        assert(a[(facinv * (x - offset)) % n] == affine_unshift(a, facinv, offset, m[k]));
    }
    let e = m.map_values(|c: char| affine_shift(a, factor, offset, c));
    let d = m.map_values(|c: char| affine_unshift(a, facinv, offset, c));
    assert forall|k: int| 0 <= k < e.len() implies a.contains(#[trigger] e[k]) by {
        assert(e[k] == affine_shift(a, factor, offset, m[k]));
    }
    assert forall|k: int| 0 <= k < d.len() implies a.contains(#[trigger] d[k]) by {
        assert(d[k] == affine_unshift(a, facinv, offset, m[k]));
    }
}

impl Affine {
    /// Decrypting an encrypted text gives it back.
    pub proof fn lemma_round_trip(&self, t: Seq<char>)
        requires
            self.inv(),
        ensures
            self.decrypt_spec(self.encrypt_spec(t)) == t,
    {
        let a = self.alpha();
        let m = members(t, a);
        let e = m.map_values(|c: char| affine_shift(a, self.factor(), self.offset(), c));
        lemma_members_are_members(t, a);
        assert forall|k: int| 0 <= k < m.len() implies #[trigger] a.contains(e[k])
            && affine_unshift(a, self.facinv(), self.offset(), e[k]) == m[k] by {
            assert(a.contains(m[k]));
            lemma_affine_char_round_trip(a, self.factor(), self.facinv(), self.offset(), m[k]);
        }
        lemma_refill_round_trip(t, e, a);
        assert(e.map_values(|c: char| affine_unshift(a, self.facinv(), self.offset(), c)) =~= m);
    }

    /// With factor 1 and offset 0 encryption changes nothing.
    pub proof fn lemma_identity(&self, t: Seq<char>)
        requires
            self.inv(),
            self.factor() == 1,
            self.offset() == 0,
        ensures
            self.encrypt_spec(t) == t,
    {
        let a = self.alpha();
        let m = members(t, a);
        lemma_members_are_members(t, a);
        assert forall|k: int| 0 <= k < m.len() implies #[trigger] affine_shift(a, 1, 0, m[k])
            == m[k] by {
            assert(a.contains(m[k]));
            lemma_index_of(a, m[k]);
            lemma_small_mod(index_of(a, m[k]) as nat, a.len());
        }
        assert(m.map_values(|c: char| affine_shift(a, 1, 0, c)) =~= m);
        crate::common::lemma_refill_own_members(t, a);
    }

    /// Over a 26-symbol alphabet, a shift by 13 undoes itself: encrypting twice
    /// gives the text back.
    pub proof fn lemma_rot13_involution(&self, t: Seq<char>)
        requires
            self.inv(),
            self.alpha().len() == 26,
            self.factor() == 1,
            self.offset() == 13,
        ensures
            self.encrypt_spec(self.encrypt_spec(t)) == t,
    {
        let a = self.alpha();
        let m = members(t, a);
        let e = m.map_values(|c: char| affine_shift(a, 1, 13, c));
        lemma_members_are_members(t, a);
        assert forall|k: int| 0 <= k < m.len() implies #[trigger] a.contains(e[k])
            && affine_shift(a, 1, 13, e[k]) == m[k] by {
            assert(a.contains(m[k]));
            lemma_index_of(a, m[k]);
            let x = index_of(a, m[k]);
            let y = (1 * x + 13) % 26;
            lemma_mod_bound(1 * x + 13, 26);
            lemma_index_of_at(a, y);
            lemma_add_mod_noop(x + 13, 13, 26);
            lemma_small_mod(13, 26);
            lemma_small_mod(y as nat, 26);
            vstd::arithmetic::div_mod::lemma_mod_add_multiples_vanish(x, 26);
            lemma_small_mod(x as nat, 26);
        }
        lemma_refill_round_trip(t, e, a);
        assert(e.map_values(|c: char| affine_shift(a, 1, 13, c)) =~= m);
    }

    /// Encryption keeps the length of the text and every non-member in place,
    /// and puts a member in every member slot.
    pub proof fn lemma_encrypt_keeps_non_members(&self, t: Seq<char>)
        requires
            self.inv(),
        ensures
            self.encrypt_spec(t).len() == t.len(),
            keeps_non_members(self.encrypt_spec(t), t, self.alpha()),
            keeps_member_slots(self.encrypt_spec(t), t, self.alpha()),
    {
        let a = self.alpha();
        lemma_affine_members(a, self.factor(), self.facinv(), self.offset(), members(t, a));
        lemma_substitution_keeps_non_members(
            t,
            members(t, a).map_values(|c: char| affine_shift(a, self.factor(), self.offset(), c)),
            a,
        );
    }

    /// Decryption keeps the length of the text and every non-member in place,
    /// and puts a member in every member slot.
    pub proof fn lemma_decrypt_keeps_non_members(&self, t: Seq<char>)
        requires
            self.inv(),
        ensures
            self.decrypt_spec(t).len() == t.len(),
            keeps_non_members(self.decrypt_spec(t), t, self.alpha()),
            keeps_member_slots(self.decrypt_spec(t), t, self.alpha()),
    {
        let a = self.alpha();
        lemma_affine_members(a, self.factor(), self.facinv(), self.offset(), members(t, a));
        lemma_substitution_keeps_non_members(
            t,
            members(t, a).map_values(|c: char| affine_unshift(a, self.facinv(), self.offset(), c)),
            a,
        );
    }
}

impl Cipher for Affine {
    fn encrypt(&self, plaintext: &str) -> (r: String)
        ensures
            r@ == self.encrypt_spec(plaintext@),
            r@.len() == plaintext@.len(),
            keeps_non_members(r@, plaintext@, self.alpha()),
            keeps_member_slots(r@, plaintext@, self.alpha()),
    {
        proof {
            use_type_invariant(self);
            self.lemma_encrypt_keeps_non_members(plaintext@);
        }
        self.substitute(plaintext, false)
    }

    fn decrypt(&self, ciphertxt: &str) -> (r: String)
        ensures
            r@ == self.decrypt_spec(ciphertxt@),
            r@.len() == ciphertxt@.len(),
            keeps_non_members(r@, ciphertxt@, self.alpha()),
            keeps_member_slots(r@, ciphertxt@, self.alpha()),
    {
        proof {
            use_type_invariant(self);
            self.lemma_decrypt_keeps_non_members(ciphertxt@);
        }
        self.substitute(ciphertxt, true)
    }
}

} // verus!
