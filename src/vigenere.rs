//! Polyalphabetic substitution driven by a cycling keystream (Vigenère), and
//! its self-reciprocal variant (Beaufort).
use crate::common::{
    all_members, alphabet_error, build_alphabet, build_key, chars_of, index_in, index_of,
    keeps_member_slots, keeps_non_members, key_error, lemma_index_of, lemma_index_of_at, lemma_members_are_members,
    lemma_refill_round_trip, lemma_substitution_keeps_non_members, members, members_of,
    refill_chars, refilled, string_of, valid_alphabet, valid_key, Cipher, CipherError,
};
use vstd::arithmetic::div_mod::{
    lemma_fundamental_div_mod_converse, lemma_mod_bound, lemma_small_mod, lemma_sub_mod_noop,
};
use vstd::prelude::*;

verus! {

/// Member `c` keyed by member `k`: `x + k`, or `x - k` to decrypt, or `k - x`
/// for Beaufort in both directions (all modulo the alphabet size).
pub open spec fn keyed_char(a: Seq<char>, c: char, k: char, beaufort: bool, decrypt: bool) -> char {
    let n = a.len() as int;
    let x = index_of(a, c);
    let y = index_of(a, k);
    if beaufort {
        a[(y - x) % n]
    } else if decrypt {
        a[(x - y) % n]
    } else {
        a[(x + y) % n]
    }
}

/// A stream of members keyed position by position by a cycling key.
pub open spec fn keyed_stream(
    a: Seq<char>,
    m: Seq<char>,
    key: Seq<char>,
    beaufort: bool,
    decrypt: bool,
) -> Seq<char> {
    Seq::new(m.len(), |i: int| keyed_char(a, m[i], key[i % (key.len() as int)], beaufort, decrypt))
}

/// Vigenère (or Beaufort) applied to the members of `t`, written back into `t`.
pub open spec fn vigenere_text(
    a: Seq<char>,
    key: Seq<char>,
    beaufort: bool,
    decrypt: bool,
    t: Seq<char>,
) -> Seq<char> {
    refilled(keyed_stream(a, members(t, a), key, beaufort, decrypt), t, a)
}

/// `x + y`, `x - y` or `y - x` modulo `n`, for `x, y < n`.
fn combine(x: usize, y: usize, n: usize, beaufort: bool, decrypt: bool) -> (r: usize)
    requires
        x < n,
        y < n,
    ensures
        r < n,
        beaufort ==> r as int == (y - x) % (n as int),
        !beaufort && decrypt ==> r as int == (x - y) % (n as int),
        !beaufort && !decrypt ==> r as int == (x + y) % (n as int),
{
    let (p, q, add) = if beaufort {
        (y, x, false)
    } else if decrypt {
        (x, y, false)
    } else {
        (x, y, true)
    };
    if add {
        if p >= n - q {
            proof {
                lemma_fundamental_div_mod_converse(p + q, n as int, 1, p - (n - q));
            }
            p - (n - q)
        } else {
            proof {
                lemma_small_mod((p + q) as nat, n as nat);
            }
            p + q
        }
    } else {
        if p >= q {
            proof {
                lemma_small_mod((p - q) as nat, n as nat);
            }
            p - q
        } else {
            proof {
                lemma_fundamental_div_mod_converse(p - q, n as int, -1, p + (n - q));
            }
            p + (n - q)
        }
    }
}

/// The stream of members `stream` keyed by the cycling `key` (see [`keyed_stream`]).
pub(crate) fn keyed(
    alpha: &Vec<char>,
    stream: &Vec<char>,
    key: &Vec<char>,
    beaufort: bool,
    decrypt: bool,
) -> (r: Vec<char>)
    requires
        valid_alphabet(alpha@),
        all_members(stream@, alpha@),
        valid_key(key@, alpha@),
    ensures
        r@ == keyed_stream(alpha@, stream@, key@, beaufort, decrypt),
        all_members(r@, alpha@),
{
    let n = alpha.len();
    let klen = key.len();
    let mut out: Vec<char> = Vec::new();
    let mut i: usize = 0;
    let mut kw: usize = 0;
    while i < stream.len()
        invariant
            valid_alphabet(alpha@),
            all_members(stream@, alpha@),
            valid_key(key@, alpha@),
            n == alpha@.len(),
            klen == key@.len(),
            i <= stream@.len(),
            kw as int == i as int % klen as int,
            out@.len() == i,
            forall|j: int|
                0 <= j < i ==> #[trigger] out@[j] == keyed_char(
                    alpha@,
                    stream@[j],
                    key@[j % (key@.len() as int)],
                    beaufort,
                    decrypt,
                ),
            all_members(out@, alpha@),
        decreases stream.len() - i,
    {
        proof {
            assert(alpha@.contains(stream@[i as int]));
            lemma_mod_bound(i as int, klen as int);
            assert(alpha@.contains(key@[kw as int]));
        }
        let x = index_in(alpha, stream[i]);
        let y = index_in(alpha, key[kw]);
        let z = combine(x, y, n, beaufort, decrypt);
        out.push(alpha[z]);
        proof {
            assert(alpha@.contains(alpha@[z as int]));
            let q = (i as int) / (klen as int);
            vstd::arithmetic::div_mod::lemma_fundamental_div_mod(i as int, klen as int);
            if kw + 1 == klen {
                assert(i + 1 == (q + 1) * klen) by (nonlinear_arith)
                    requires
                        i == klen * q + kw,
                        kw + 1 == klen,
                ;
                lemma_fundamental_div_mod_converse(i + 1, klen as int, q + 1, 0);
            } else {
                assert(i + 1 == q * klen + (kw + 1)) by (nonlinear_arith)
                    requires
                        i == klen * q + kw,
                ;
                lemma_fundamental_div_mod_converse(i + 1, klen as int, q, kw + 1);
            }
        }
        kw = if kw + 1 == klen {
            0
        } else {
            kw + 1
        };
        i = i + 1;
    }
    proof {
        assert(out@ =~= keyed_stream(alpha@, stream@, key@, beaufort, decrypt));
    }
    out
}

/// A keyed symbol is always a member of a non-empty alphabet.
pub proof fn lemma_keyed_char_member(a: Seq<char>, c: char, k: char, beaufort: bool, decrypt: bool)
    requires
        a.len() > 0,
    ensures
        a.contains(keyed_char(a, c, k, beaufort, decrypt)),
{
    let n = a.len() as int;
    let x = index_of(a, c);
    let y = index_of(a, k);
    lemma_mod_bound(y - x, n);
    lemma_mod_bound(x - y, n);
    lemma_mod_bound(x + y, n);
    let z = if beaufort {
        (y - x) % n
    } else if decrypt {
        (x - y) % n
    } else {
        (x + y) % n
    };
    assert(a[z] == keyed_char(a, c, k, beaufort, decrypt));
}

/// A keyed stream is made of members.
pub proof fn lemma_keyed_stream_members(
    a: Seq<char>,
    m: Seq<char>,
    key: Seq<char>,
    beaufort: bool,
    decrypt: bool,
)
    requires
        a.len() > 0,
    ensures
        all_members(keyed_stream(a, m, key, beaufort, decrypt), a),
{
    let e = keyed_stream(a, m, key, beaufort, decrypt);
    assert forall|i: int| 0 <= i < e.len() implies a.contains(#[trigger] e[i]) by {
        lemma_keyed_char_member(a, m[i], key[i % (key.len() as int)], beaufort, decrypt);
    }
}

/// Keying a member by a member gives a member, and keying with the opposite
/// direction (or with Beaufort again) restores it.
pub proof fn lemma_keyed_char_round_trip(a: Seq<char>, c: char, k: char, beaufort: bool)
    requires
        valid_alphabet(a),
        a.contains(c),
        a.contains(k),
    ensures
        a.contains(keyed_char(a, c, k, beaufort, false)),
        keyed_char(a, keyed_char(a, c, k, beaufort, false), k, beaufort, true) == c,
{
    let n = a.len() as int;
    lemma_index_of(a, c);
    lemma_index_of(a, k);
    let x = index_of(a, c);
    let y = index_of(a, k);
    let z = if beaufort {
        (y - x) % n
    } else {
        (x + y) % n
    };
    lemma_mod_bound(y - x, n);
    lemma_mod_bound(x + y, n);
    lemma_index_of_at(a, z);
    lemma_small_mod(x as nat, n as nat);
    lemma_small_mod(y as nat, n as nat);
    if beaufort {
        lemma_sub_mod_noop(y, y - x, n);
        assert(y - (y - x) == x);
    } else {
        lemma_sub_mod_noop(x + y, y, n);
        assert(x + y - y == x);
    }
}

/// Keying a stream and then keying it back with the same key restores it.
pub proof fn lemma_keyed_stream_round_trip(a: Seq<char>, m: Seq<char>, key: Seq<char>, beaufort: bool)
    requires
        valid_alphabet(a),
        all_members(m, a),
        valid_key(key, a),
    ensures
        all_members(keyed_stream(a, m, key, beaufort, false), a),
        keyed_stream(a, keyed_stream(a, m, key, beaufort, false), key, beaufort, true) == m,
{
    let e = keyed_stream(a, m, key, beaufort, false);
    assert forall|i: int| 0 <= i < m.len() implies a.contains(#[trigger] e[i]) && keyed_char(
        a,
        e[i],
        key[i % (key.len() as int)],
        beaufort,
        true,
    ) == m[i] by {
        lemma_mod_bound(i, key.len() as int);
        assert(a.contains(m[i]));
        assert(a.contains(key[i % (key.len() as int)]));
        lemma_keyed_char_round_trip(a, m[i], key[i % (key.len() as int)], beaufort);
    }
    assert(keyed_stream(a, e, key, beaufort, true) =~= m);
}

/// A Vigenère or Beaufort cipher over an alphabet.
#[derive(Debug)]
pub struct Vigenere {
    alphabet: Vec<char>,
    keystream: Vec<char>,
    beaufort: bool,
}

impl Vigenere {
    /// Well-formed: a valid alphabet and a valid key over it.
    #[verifier::type_invariant]
    pub closed spec fn inv(&self) -> bool {
        valid_alphabet(self.alphabet@) && valid_key(self.keystream@, self.alphabet@)
    }

    /// The alphabet.
    pub closed spec fn alpha(&self) -> Seq<char> {
        self.alphabet@
    }

    /// The keystream.
    pub closed spec fn key(&self) -> Seq<char> {
        self.keystream@
    }

    /// Whether this is the Beaufort variant.
    pub closed spec fn is_beaufort(&self) -> bool {
        self.beaufort
    }

    /// Encryption of `t`.
    pub open spec fn encrypt_spec(&self, t: Seq<char>) -> Seq<char> {
        vigenere_text(self.alpha(), self.key(), self.is_beaufort(), false, t)
    }

    /// Decryption of `t`.
    pub open spec fn decrypt_spec(&self, t: Seq<char>) -> Seq<char> {
        vigenere_text(self.alpha(), self.key(), self.is_beaufort(), true, t)
    }

    fn build(alphabet: &str, keystream: &str, beaufort: bool) -> (r: Result<Self, CipherError>)
        ensures
            r is Ok <==> valid_alphabet(alphabet@) && valid_key(keystream@, alphabet@),
            r matches Err(e) ==> e == (if !valid_alphabet(alphabet@) {
                alphabet_error(alphabet@)
            } else {
                key_error(keystream@)
            }),
            r matches Ok(c) ==> c.inv() && c.alpha() == alphabet@ && c.key() == keystream@
                && c.is_beaufort() == beaufort,
    {
        let symbols = match build_alphabet(alphabet) {
            Ok(v) => v,
            Err(e) => {
                return Err(e);
            },
        };
        let key = match build_key(keystream, &symbols) {
            Ok(v) => v,
            Err(e) => {
                return Err(e);
            },
        };
        Ok(Vigenere { alphabet: symbols, keystream: key, beaufort })
    }

    /// A Vigenère cipher with the given keystream; fails on an invalid alphabet,
    /// or on a key that is empty or holds a non-member.
    pub fn new(alphabet: &str, keystream: &str) -> (r: Result<Self, CipherError>)
        ensures
            r is Ok <==> valid_alphabet(alphabet@) && valid_key(keystream@, alphabet@),
            r matches Err(e) ==> e == (if !valid_alphabet(alphabet@) {
                alphabet_error(alphabet@)
            } else {
                key_error(keystream@)
            }),
            r matches Ok(c) ==> c.inv() && c.alpha() == alphabet@ && c.key() == keystream@
                && !c.is_beaufort(),
    {
        Self::build(alphabet, keystream, false)
    }

    /// A Beaufort cipher with the given keystream; fails as [`Vigenere::new`] does.
    pub fn new_beaufort(alphabet: &str, keystream: &str) -> (r: Result<Self, CipherError>)
        ensures
            r is Ok <==> valid_alphabet(alphabet@) && valid_key(keystream@, alphabet@),
            r matches Err(e) ==> e == (if !valid_alphabet(alphabet@) {
                alphabet_error(alphabet@)
            } else {
                key_error(keystream@)
            }),
            r matches Ok(c) ==> c.inv() && c.alpha() == alphabet@ && c.key() == keystream@
                && c.is_beaufort(),
    {
        Self::build(alphabet, keystream, true)
    }

    fn substitute(&self, input: &str, decrypt: bool) -> (r: String)
        ensures
            r@ == vigenere_text(self.alpha(), self.key(), self.is_beaufort(), decrypt, input@),
    {
        proof {
            use_type_invariant(self);
            lemma_members_are_members(input@, self.alphabet@);
        }
        let text = chars_of(input);
        let stream = members_of(&text, &self.alphabet);
        let out = keyed(&self.alphabet, &stream, &self.keystream, self.beaufort, decrypt);
        let filled = refill_chars(&out, &text, &self.alphabet);
        string_of(&filled)
    }

    /// Decrypting an encrypted text gives it back.
    pub proof fn lemma_round_trip(&self, t: Seq<char>)
        requires
            self.inv(),
        ensures
            self.decrypt_spec(self.encrypt_spec(t)) == t,
    {
        let a = self.alpha();
        let m = members(t, a);
        lemma_members_are_members(t, a);
        lemma_keyed_stream_round_trip(a, m, self.key(), self.is_beaufort());
        lemma_refill_round_trip(t, keyed_stream(a, m, self.key(), self.is_beaufort(), false), a);
    }

    /// Beaufort is self-reciprocal: decryption is the same operation as encryption.
    pub proof fn lemma_beaufort_reciprocal(&self, t: Seq<char>)
        requires
            self.is_beaufort(),
        ensures
            self.decrypt_spec(t) == self.encrypt_spec(t),
    {
        let a = self.alpha();
        assert(keyed_stream(a, members(t, a), self.key(), true, true) =~= keyed_stream(
            a,
            members(t, a),
            self.key(),
            true,
            false,
        ));
    }

    /// Non-members consume no key position: filtering the output gives the
    /// same as running the cipher on the filtered input.
    pub proof fn lemma_filter_commutes(&self, t: Seq<char>, decrypt: bool)
        requires
            self.inv(),
        ensures
            members(vigenere_text(self.alpha(), self.key(), self.is_beaufort(), decrypt, t), self.alpha())
                == vigenere_text(
                self.alpha(),
                self.key(),
                self.is_beaufort(),
                decrypt,
                members(t, self.alpha()),
            ),
    {
        let a = self.alpha();
        let m = members(t, a);
        let e = keyed_stream(a, m, self.key(), self.is_beaufort(), decrypt);
        lemma_members_are_members(t, a);
        crate::common::lemma_members_of_members(m, a);
        lemma_keyed_stream_members(a, m, self.key(), self.is_beaufort(), decrypt);
        crate::common::lemma_members_of_refilled(e, t, a);
        crate::common::lemma_refill_full(e, m, a);
    }

    /// Both directions keep the length of the text and every non-member in
    /// place, and put a member in every member slot.
    pub proof fn lemma_keeps_non_members(&self, t: Seq<char>, decrypt: bool)
        requires
            self.inv(),
        ensures
            keeps_member_slots(
                vigenere_text(self.alpha(), self.key(), self.is_beaufort(), decrypt, t),
                t,
                self.alpha(),
            ),
            vigenere_text(self.alpha(), self.key(), self.is_beaufort(), decrypt, t).len()
                == t.len(),
            keeps_non_members(
                vigenere_text(self.alpha(), self.key(), self.is_beaufort(), decrypt, t),
                t,
                self.alpha(),
            ),
    {
        let a = self.alpha();
        lemma_keyed_stream_members(a, members(t, a), self.key(), self.is_beaufort(), decrypt);
        lemma_substitution_keeps_non_members(
            t,
            keyed_stream(a, members(t, a), self.key(), self.is_beaufort(), decrypt),
            a,
        );
    }
}

impl Cipher for Vigenere {
    fn encrypt(&self, plaintext: &str) -> (r: String)
        ensures
            r@ == self.encrypt_spec(plaintext@),
            r@.len() == plaintext@.len(),
            keeps_non_members(r@, plaintext@, self.alpha()),
            keeps_member_slots(r@, plaintext@, self.alpha()),
    {
        proof {
            use_type_invariant(self);
            self.lemma_keeps_non_members(plaintext@, false);
        }
        self.substitute(plaintext, false)
    }

    fn decrypt(&self, ciphertxt: &str) -> (r: String)
        ensures
            r@ == self.decrypt_spec(ciphertxt@),
            r@.len() == ciphertxt@.len(),
            keeps_non_members(r@, ciphertxt@, self.alpha()),
            keeps_member_slots(r@, ciphertxt@, self.alpha()),
    {
        proof {
            use_type_invariant(self);
            self.lemma_keeps_non_members(ciphertxt@, true);
        }
        self.substitute(ciphertxt, true)
    }
}

} // verus!
