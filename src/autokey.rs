//! Autokey: a Vigenère keystream seeded by a primer and continued by the text
//! itself (plaintext, or ciphertext when autoregressive).
use crate::common::{
    all_members, alphabet_error, build_alphabet, build_key, chars_of, keeps_member_slots,
    keeps_non_members,
    key_error, lemma_members_are_members, lemma_refill_round_trip,
    lemma_substitution_keeps_non_members, members, members_of, refill_chars, refilled,
    string_of, valid_alphabet, valid_key, Cipher, CipherError,
};
use crate::vigenere::{
    keyed, keyed_char, keyed_stream, lemma_keyed_char_member, lemma_keyed_char_round_trip,
    lemma_keyed_stream_members,
};
use vstd::arithmetic::div_mod::lemma_small_mod;
use vstd::prelude::*;

verus! {

/// The key symbol for position `i` of a stream keyed by `primer` and then by
/// the stream `s` itself, `primer.len()` places back.
pub open spec fn feedback_key(primer: Seq<char>, s: Seq<char>, i: int) -> char {
    if i < primer.len() {
        primer[i]
    } else {
        s[i - primer.len()]
    }
}

/// The output stream of the chunked strategy: position `i` of `m` is keyed by
/// the primer, or by the output `primer.len()` places back.
pub open spec fn feedback(a: Seq<char>, primer: Seq<char>, m: Seq<char>, decrypt: bool) -> Seq<
    char,
>
    decreases m.len(),
{
    if m.len() == 0 {
        Seq::empty()
    } else {
        let prev = feedback(a, primer, m.drop_last(), decrypt);
        let i = m.len() - 1;
        prev.push(keyed_char(a, m[i], feedback_key(primer, prev, i), false, decrypt))
    }
}

/// The continuous strategy: one Vigenère pass keyed by the primer followed by
/// the members of `t`.
pub open spec fn continuous_text(a: Seq<char>, primer: Seq<char>, decrypt: bool, t: Seq<char>) -> Seq<
    char,
> {
    refilled(keyed_stream(a, members(t, a), primer + members(t, a), false, decrypt), t, a)
}

/// The chunked strategy written back into `t`.
pub open spec fn chunked_text(a: Seq<char>, primer: Seq<char>, decrypt: bool, t: Seq<char>) -> Seq<
    char,
> {
    refilled(feedback(a, primer, members(t, a), decrypt), t, a)
}

/// Each output position of the chunked strategy obeys its recurrence.
pub proof fn lemma_feedback_index(a: Seq<char>, primer: Seq<char>, m: Seq<char>, decrypt: bool)
    requires
        primer.len() > 0,
    ensures
        feedback(a, primer, m, decrypt).len() == m.len(),
        forall|i: int|
            0 <= i < m.len() ==> #[trigger] feedback(a, primer, m, decrypt)[i] == keyed_char(
                a,
                m[i],
                feedback_key(primer, feedback(a, primer, m, decrypt), i),
                false,
                decrypt,
            ),
    decreases m.len(),
{
    if m.len() > 0 {
        let prev = feedback(a, primer, m.drop_last(), decrypt);
        lemma_feedback_index(a, primer, m.drop_last(), decrypt);
        let s = feedback(a, primer, m, decrypt);
        assert forall|i: int| 0 <= i < m.len() implies #[trigger] s[i] == keyed_char(
            a,
            m[i],
            feedback_key(primer, s, i),
            false,
            decrypt,
        ) by {
            if i < m.len() - 1 {
                assert(s[i] == prev[i]);
                assert(m.drop_last()[i] == m[i]);
                if i >= primer.len() {
                    assert(s[i - primer.len()] == prev[i - primer.len()]);
                }
            } else {
                if i >= primer.len() {
                    assert(s[i - primer.len()] == prev[i - primer.len()]);
                }
            }
        }
    }
}

/// The chunked output is the only stream that obeys the recurrence.
pub proof fn lemma_feedback_unique(
    a: Seq<char>,
    primer: Seq<char>,
    m: Seq<char>,
    decrypt: bool,
    s: Seq<char>,
)
    requires
        primer.len() > 0,
        s.len() == m.len(),
        forall|i: int|
            0 <= i < m.len() ==> #[trigger] s[i] == keyed_char(
                a,
                m[i],
                feedback_key(primer, s, i),
                false,
                decrypt,
            ),
    ensures
        s == feedback(a, primer, m, decrypt),
    decreases m.len(),
{
    if m.len() > 0 {
        let sl = s.drop_last();
        let ml = m.drop_last();
        assert forall|i: int| 0 <= i < ml.len() implies #[trigger] sl[i] == keyed_char(
            a,
            ml[i],
            feedback_key(primer, sl, i),
            false,
            decrypt,
        ) by {
            assert(s[i] == keyed_char(a, m[i], feedback_key(primer, s, i), false, decrypt));
            if i >= primer.len() {
                assert(sl[i - primer.len()] == s[i - primer.len()]);
            }
        }
        lemma_feedback_unique(a, primer, ml, decrypt, sl);
        let i = m.len() - 1;
        assert(s[i] == keyed_char(a, m[i], feedback_key(primer, s, i), false, decrypt));
        if i >= primer.len() {
            assert(sl[i - primer.len()] == s[i - primer.len()]);
        }
        assert(s =~= sl.push(s[i]));
    } else {
        assert(s =~= Seq::<char>::empty());
    }
}

/// An autokey cipher: a primer, and whether the keystream continues with the
/// ciphertext (autoregressive) or with the plaintext.
#[derive(Debug)]
pub struct AutoKey {
    alphabet: Vec<char>,
    primer: Vec<char>,
    autoregressive: bool,
}

impl AutoKey {
    /// Well-formed: a valid alphabet and a valid primer over it.
    #[verifier::type_invariant]
    pub closed spec fn inv(&self) -> bool {
        valid_alphabet(self.alphabet@) && valid_key(self.primer@, self.alphabet@)
    }

    /// The alphabet.
    pub closed spec fn alpha(&self) -> Seq<char> {
        self.alphabet@
    }

    /// The primer.
    pub closed spec fn primer(&self) -> Seq<char> {
        self.primer@
    }

    /// Whether the keystream continues with the ciphertext.
    pub closed spec fn is_autoregressive(&self) -> bool {
        self.autoregressive
    }

    /// Encryption: the continuous pass when the key source (the plaintext) is
    /// known, the chunked pass otherwise.
    pub open spec fn encrypt_spec(&self, t: Seq<char>) -> Seq<char> {
        if self.is_autoregressive() {
            chunked_text(self.alpha(), self.primer(), false, t)
        } else {
            continuous_text(self.alpha(), self.primer(), false, t)
        }
    }

    /// Decryption: the continuous pass when the key source (the ciphertext) is
    /// known, the chunked pass otherwise.
    pub open spec fn decrypt_spec(&self, t: Seq<char>) -> Seq<char> {
        if self.is_autoregressive() {
            continuous_text(self.alpha(), self.primer(), true, t)
        } else {
            chunked_text(self.alpha(), self.primer(), true, t)
        }
    }

    /// Builds the cipher; fails on an invalid alphabet, or on a primer that is
    /// empty or holds a non-member.
    pub fn new(alphabet: &str, primer: &str, autoregressive: bool) -> (r: Result<
        Self,
        CipherError,
    >)
        ensures
            r is Ok <==> valid_alphabet(alphabet@) && valid_key(primer@, alphabet@),
            r matches Err(e) ==> e == (if !valid_alphabet(alphabet@) {
                alphabet_error(alphabet@)
            } else {
                key_error(primer@)
            }),
            r matches Ok(c) ==> c.inv() && c.alpha() == alphabet@ && c.primer() == primer@
                && c.is_autoregressive() == autoregressive,
    {
        let symbols = match build_alphabet(alphabet) {
            Ok(v) => v,
            Err(e) => {
                return Err(e);
            },
        };
        let key = match build_key(primer, &symbols) {
            Ok(v) => v,
            Err(e) => {
                return Err(e);
            },
        };
        Ok(AutoKey { alphabet: symbols, primer: key, autoregressive })
    }

    /// One Vigenère pass over the whole input, keyed by the primer followed by the
    /// input's own members.
    fn parallelize(&self, input: &str, decrypt: bool) -> (r: String)
        ensures
            r@ == continuous_text(self.alpha(), self.primer(), decrypt, input@),
    {
        proof {
            use_type_invariant(self);
            lemma_members_are_members(input@, self.alphabet@);
        }
        let text = chars_of(input);
        let stream = members_of(&text, &self.alphabet);
        let mut key: Vec<char> = Vec::new();
        let mut i: usize = 0;
        while i < self.primer.len()
            invariant
                i <= self.primer@.len(),
                key@ == self.primer@.take(i as int),
            decreases self.primer.len() - i,
        {
            key.push(self.primer[i]);
            proof {
                assert(key@ =~= self.primer@.take(i + 1));
            }
            i = i + 1;
        }
        let mut j: usize = 0;
        proof {
            assert(self.primer@.take(i as int) =~= self.primer@);
        }
        while j < stream.len()
            invariant
                j <= stream@.len(),
                key@ == self.primer@ + stream@.take(j as int),
            decreases stream.len() - j,
        {
            key.push(stream[j]);
            proof {
                assert(key@ =~= self.primer@ + stream@.take(j + 1));
            }
            j = j + 1;
        }
        proof {
            assert(stream@.take(j as int) =~= stream@);
            assert forall|k: int| 0 <= k < key@.len() implies self.alphabet@.contains(
                #[trigger] key@[k],
            ) by {
                if k < self.primer@.len() {
                    assert(key@[k] == self.primer@[k]);
                } else {
                    assert(key@[k] == stream@[k - self.primer@.len()]);
                }
            }
        }
        let out = keyed(&self.alphabet, &stream, &key, false, decrypt);
        let filled = refill_chars(&out, &text, &self.alphabet);
        string_of(&filled)
    }

    /// Chunk by chunk, each of the primer's length: the first chunk is keyed by
    /// the primer, every later one by the output of the chunk before it.
    fn autoregress(&self, input: &str, decrypt: bool) -> (r: String)
        ensures
            r@ == chunked_text(self.alpha(), self.primer(), decrypt, input@),
    {
        proof {
            use_type_invariant(self);
            lemma_members_are_members(input@, self.alphabet@);
        }
        let ghost a = self.alphabet@;
        let ghost p = self.primer@;
        let text = chars_of(input);
        let stream = members_of(&text, &self.alphabet);
        let len = stream.len();
        let chunk_size = self.primer.len();
        let mut out: Vec<char> = Vec::new();
        let mut key: Vec<char> = Vec::new();
        let mut i: usize = 0;
        while i < chunk_size
            invariant
                i <= p.len(),
                chunk_size == p.len(),
                p == self.primer@,
                key@ == p.take(i as int),
            decreases chunk_size - i,
        {
            key.push(self.primer[i]);
            proof {
                assert(key@ =~= p.take(i + 1));
            }
            i = i + 1;
        }
        proof {
            assert(p.take(i as int) =~= p);
        }
        let mut start: usize = 0;
        while start < len
            invariant
                valid_alphabet(a),
                valid_key(p, a),
                a == self.alphabet@,
                len == stream@.len(),
                chunk_size == p.len(),
                all_members(stream@, a),
                start <= len,
                out@.len() == start,
                all_members(out@, a),
                valid_key(key@, a),
                start == 0 ==> key@ == p,
                0 < start < len ==> start >= chunk_size && key@.len() == chunk_size && forall|t: int|
                    0 <= t < chunk_size ==> #[trigger] key@[t] == out@[start - chunk_size + t],
                forall|k: int|
                    0 <= k < start ==> #[trigger] out@[k] == keyed_char(
                        a,
                        stream@[k],
                        feedback_key(p, out@, k),
                        false,
                        decrypt,
                    ),
            decreases len - start,
        {
            let end: usize = if len - start > chunk_size {
                start + chunk_size
            } else {
                len
            };
            let mut chunk: Vec<char> = Vec::new();
            let mut c: usize = start;
            while c < end
                invariant
                    start <= c <= end,
                    end <= len,
                    len == stream@.len(),
                    chunk@ == stream@.subrange(start as int, c as int),
                decreases end - c,
            {
                chunk.push(stream[c]);
                proof {
                    assert(chunk@ =~= stream@.subrange(start as int, c + 1));
                }
                c = c + 1;
            }
            proof {
                assert forall|k: int| 0 <= k < chunk@.len() implies a.contains(#[trigger] chunk@[k]) by {
                    assert(chunk@[k] == stream@[start + k]);
                }
            }
            let sub = keyed(&self.alphabet, &chunk, &key, false, decrypt);
            let ghost old_out = out@;
            let mut t: usize = 0;
            while t < sub.len()
                invariant
                    t <= sub@.len(),
                    sub@.len() == end - start,
                    out@.len() == start + t,
                    out@.take(start as int) == old_out,
                    forall|k: int| 0 <= k < t ==> #[trigger] out@[start + k] == sub@[k],
                decreases sub.len() - t,
            {
                out.push(sub[t]);
                proof {
                    assert(out@.take(start as int) =~= old_out);
                }
                t = t + 1;
            }
            proof {
                assert forall|k: int| 0 <= k < end implies #[trigger] out@[k] == keyed_char(
                    a,
                    stream@[k],
                    feedback_key(p, out@, k),
                    false,
                    decrypt,
                ) by {
                    if k < start {
                        assert(out@[k] == old_out[k]);
                        if k >= p.len() {
                            assert(out@[k - p.len()] == old_out[k - p.len()]);
                        }
                    } else {
                        let u = k - start;
                        assert(out@[start + u] == sub@[u]);
                        lemma_small_mod(u as nat, key@.len() as nat);
                        assert(chunk@[u] == stream@[k]);
                        if start > 0 {
                            assert(key@[u] == old_out[start - chunk_size + u]);
                            assert(out@[k - p.len()] == old_out[k - p.len()]);
                        }
                    }
                }
                assert forall|k: int| 0 <= k < out@.len() implies a.contains(#[trigger] out@[k]) by {
                    if k < start {
                        assert(out@[k] == old_out[k]);
                    } else {
                        assert(out@[start + (k - start)] == sub@[k - start]);
                    }
                }
                if end < len {
                    assert forall|u: int| 0 <= u < chunk_size implies #[trigger] sub@[u]
                        == out@[end - chunk_size + u] by {
                        assert(out@[start + u] == sub@[u]);
                    }
                }
            }
            key = sub;
            start = end;
        }
        proof {
            lemma_feedback_unique(a, p, stream@, decrypt, out@);
        }
        let filled = refill_chars(&out, &text, &self.alphabet);
        string_of(&filled)
    }
}

impl AutoKey {
    /// Decrypting an encrypted text gives it back, in both modes.
    pub proof fn lemma_round_trip(&self, t: Seq<char>)
        requires
            self.inv(),
        ensures
            self.decrypt_spec(self.encrypt_spec(t)) == t,
    {
        let a = self.alpha();
        let p = self.primer();
        let m = members(t, a);
        lemma_members_are_members(t, a);
        if !self.is_autoregressive() {
            let key = p + m;
            let e = keyed_stream(a, m, key, false, false);
            assert forall|i: int| 0 <= i < m.len() implies a.contains(#[trigger] e[i]) && keyed_char(
                a,
                e[i],
                feedback_key(p, m, i),
                false,
                true,
            ) == m[i] by {
                lemma_small_mod(i as nat, key.len());
                assert(key[i] == feedback_key(p, m, i));
                assert(a.contains(m[i]));
                assert(a.contains(key[i]));
                lemma_keyed_char_round_trip(a, m[i], key[i], false);
            }
            lemma_refill_round_trip(t, e, a);
            lemma_feedback_unique(a, p, e, true, m);
        } else {
            let f = feedback(a, p, m, false);
            lemma_feedback_index(a, p, m, false);
            let key = p + f;
            assert forall|i: int| 0 <= i < m.len() implies a.contains(#[trigger] f[i])
                && keyed_char(a, f[i], key[i % (key.len() as int)], false, true) == m[i] by {
                lemma_small_mod(i as nat, key.len());
                assert(key[i] == feedback_key(p, f, i));
                assert(a.contains(m[i]));
                assert(a.contains(feedback_key(p, f, i))) by {
                    if i >= p.len() {
                        assert(a.contains(f[i - p.len()])) by {
                            let j = i - p.len();
                            assert(a.contains(m[j]));
                            assert(a.contains(feedback_key(p, f, j))) by {
                                lemma_chunked_members(a, p, m, j);
                            }
                            lemma_keyed_char_round_trip(a, m[j], feedback_key(p, f, j), false);
                        }
                    }
                }
                lemma_keyed_char_round_trip(a, m[i], feedback_key(p, f, i), false);
            }
            lemma_refill_round_trip(t, f, a);
            assert(keyed_stream(a, f, key, false, true) =~= m);
        }
    }

    /// Both directions keep the length of the text and every non-member in
    /// place, and put a member in every member slot.
    pub proof fn lemma_keeps_non_members(&self, t: Seq<char>, decrypt: bool)
        requires
            self.inv(),
        ensures
            ({
                let r = if decrypt {
                    self.decrypt_spec(t)
                } else {
                    self.encrypt_spec(t)
                };
                r.len() == t.len() && keeps_non_members(r, t, self.alpha()) && keeps_member_slots(
                    r,
                    t,
                    self.alpha(),
                )
            }),
    {
        let a = self.alpha();
        let p = self.primer();
        let m = members(t, a);
        lemma_feedback_index(a, p, m, decrypt);
        let f = feedback(a, p, m, decrypt);
        assert forall|i: int| 0 <= i < f.len() implies a.contains(#[trigger] f[i]) by {
            lemma_keyed_char_member(a, m[i], feedback_key(p, f, i), false, decrypt);
        }
        lemma_keyed_stream_members(a, m, p + m, false, decrypt);
        lemma_substitution_keeps_non_members(t, feedback(a, p, m, decrypt), a);
        lemma_substitution_keeps_non_members(t, keyed_stream(a, m, p + m, false, decrypt), a);
    }
}

/// Every output of the chunked strategy over members is a member, and so is
/// every key symbol it uses.
pub proof fn lemma_chunked_members(a: Seq<char>, p: Seq<char>, m: Seq<char>, j: int)
    requires
        valid_alphabet(a),
        valid_key(p, a),
        all_members(m, a),
        0 <= j < m.len(),
    ensures
        a.contains(feedback_key(p, feedback(a, p, m, false), j)),
        a.contains(feedback(a, p, m, false)[j]),
    decreases j,
{
    let f = feedback(a, p, m, false);
    lemma_feedback_index(a, p, m, false);
    if j >= p.len() {
        lemma_chunked_members(a, p, m, j - p.len());
    }
    assert(a.contains(m[j]));
    lemma_keyed_char_round_trip(a, m[j], feedback_key(p, f, j), false);
}

impl Cipher for AutoKey {
    fn encrypt(&self, plaintext: &str) -> (r: String)
        ensures
            r@ == self.encrypt_spec(plaintext@),
            r@.len() == plaintext@.len(),
            keeps_non_members(r@, plaintext@, self.alpha()),
            keeps_member_slots(r@, plaintext@, self.alpha()),
    {
        proof {
            use_type_invariant(self);
            self.lemma_keeps_non_members(plaintext@, false);
        }
        if self.autoregressive {
            self.autoregress(plaintext, false)
        } else {
            self.parallelize(plaintext, false)
        }
    }

    fn decrypt(&self, ciphertxt: &str) -> (r: String)
        ensures
            r@ == self.decrypt_spec(ciphertxt@),
            r@.len() == ciphertxt@.len(),
            keeps_non_members(r@, ciphertxt@, self.alpha()),
            keeps_member_slots(r@, ciphertxt@, self.alpha()),
    {
        proof {
            use_type_invariant(self);
            self.lemma_keeps_non_members(ciphertxt@, true);
        }
        if self.autoregressive {
            self.parallelize(ciphertxt, true)
        } else {
            self.autoregress(ciphertxt, true)
        }
    }
}

} // verus!
