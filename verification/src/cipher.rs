//! The keystream cipher layer: the password-seeded keystream drawn from a
//! [`Keccak`] session with the shipped SHAKE-256 parameters, the byte-wise
//! XOR cipher [`binary`], and the rejection-sampled substitution cipher
//! [`textual`] over a bounded alphabet.
//!
//! The round-trip laws — decrypting an encryption returns the input — are
//! stated and proved here as public proof functions.

use vstd::prelude::*;
use crate::sponge::Keccak;
use crate::sponge::absorb_bytes;
use crate::sponge::pad_lanes;
use crate::sponge::squeeze_bytes;
use crate::sponge::squeeze_one;
use crate::sponge::lemma_squeeze_bytes_snoc;
use crate::sponge::zero_lanes;
use crate::alphabet::lookup_index;

verus! {

/// Rate in bits of the shipped extendable-output variant.
pub const RATE_BITS: usize = 1088;

/// Capacity in bits of the shipped extendable-output variant.
pub const CAPACITY_BITS: usize = 512;

/// Domain-separation suffix of the shipped extendable-output variant.
pub const SUFFIX: u8 = 0x1F;

/// Rate in bytes of the shipped variant.
pub const RATE_IN_BYTES: usize = 136;

/// The state and absorb offset of a fresh session that has absorbed the
/// password under the shipped parameters.
pub open spec fn password_absorbed(p: Seq<u8>) -> (Seq<u64>, int) {
    absorb_bytes(zero_lanes(), 0, RATE_IN_BYTES as int, p)
}

/// The state right after padding: where the keystream of password `p` starts.
pub open spec fn stream_start(p: Seq<u8>) -> Seq<u64> {
    pad_lanes(password_absorbed(p).0, password_absorbed(p).1, RATE_IN_BYTES as int, SUFFIX)
}

/// The first `n` bytes of the keystream of password `p`.
pub open spec fn keystream(p: Seq<u8>, n: nat) -> Seq<u8> {
    squeeze_bytes(stream_start(p), 0, RATE_IN_BYTES as int, n).0
}

/// Byte `i` of the keystream of password `p`.
pub open spec fn ks_byte(p: Seq<u8>, i: nat) -> u8 {
    keystream(p, i + 1).last()
}

/// The state the keystream of `p` is in once `pos` bytes have been drawn.
pub open spec fn stream_lanes(p: Seq<u8>, pos: nat) -> Seq<u64> {
    squeeze_bytes(stream_start(p), 0, RATE_IN_BYTES as int, pos).1
}

/// The in-block offset of the keystream of `p` once `pos` bytes have been
/// drawn.
pub open spec fn stream_offset(p: Seq<u8>, pos: nat) -> int {
    squeeze_bytes(stream_start(p), 0, RATE_IN_BYTES as int, pos).2
}

/// Drawing one more byte from the stream at `pos` yields `ks_byte(p, pos)`
/// and moves the stream to `pos + 1`.
pub proof fn lemma_stream_advance(p: Seq<u8>, pos: nat)
    ensures
        squeeze_one(stream_lanes(p, pos), stream_offset(p, pos), RATE_IN_BYTES as int) == (
            ks_byte(p, pos),
            stream_lanes(p, pos + 1),
            stream_offset(p, pos + 1),
        ),
        keystream(p, pos + 1) == keystream(p, pos).push(ks_byte(p, pos)),
{
    lemma_squeeze_bytes_snoc(stream_start(p), 0, RATE_IN_BYTES as int, pos);
    let one = squeeze_one(stream_lanes(p, pos), stream_offset(p, pos), RATE_IN_BYTES as int);
    assert(one =~= (one.0, one.1, one.2));
}

/// A session that holds the keystream of password `p`, `pos` bytes in: either
/// it has only absorbed the password (and `pos` is 0), or it is squeezing and
/// its state and offset are exactly where the model stream stands.
pub open spec fn session_tracks(k: Keccak, p: Seq<u8>, pos: nat) -> bool {
    &&& k.wf()
    &&& k.rate() == RATE_IN_BYTES as int
    &&& k.suffix() == SUFFIX
    &&& if k.is_absorbing() {
        pos == 0 && k.lanes() == password_absorbed(p).0 && k.absorbed_count() == password_absorbed(
            p,
        ).1
    } else {
        k.lanes() == stream_lanes(p, pos) && k.squeezed_count() == stream_offset(p, pos)
    }
}

/// A fresh session that has absorbed the password tracks position 0.
pub fn new_session(password: &[u8]) -> (k: Keccak)
    ensures
        session_tracks(k, password@, 0),
{
    let mut shake = Keccak::new(RATE_BITS, CAPACITY_BITS, SUFFIX);
    shake.absorb(password);
    shake
}

/// Draws the next keystream byte from a tracked session.
fn next_key_byte(shake: &mut Keccak, Ghost(p): Ghost<Seq<u8>>, Ghost(pos): Ghost<nat>) -> (b: u8)
    requires
        session_tracks(*old(shake), p, pos),
    ensures
        session_tracks(*final(shake), p, pos + 1),
        b == ks_byte(p, pos),
{
    proof {
        lemma_stream_advance(p, pos);
        let rate = RATE_IN_BYTES as int;
        assert(squeeze_bytes(stream_start(p), 0, rate, 0) =~= (
            Seq::<u8>::empty(),
            stream_start(p),
            0int,
        ));
        let one = squeeze_one(stream_lanes(p, pos), stream_offset(p, pos), rate);
        assert(squeeze_bytes(one.1, one.2, rate, 0) =~= (Seq::<u8>::empty(), one.1, one.2));
        assert(squeeze_bytes(stream_lanes(p, pos), stream_offset(p, pos), rate, 1).0 =~= seq![
            one.0,
        ]);
    }
    let out = shake.squeeze(1);
    out[0]
}

/// What the XOR cipher returns: each input byte XORed with the keystream byte
/// of its position.
pub open spec fn binary_spec(p: Seq<u8>, input: Seq<u8>) -> Seq<u8> {
    Seq::new(input.len(), |i: int| input[i] ^ ks_byte(p, i as nat))
}

/// Encrypts or decrypts `input` by XORing every byte with one squeezed
/// keystream byte; the two directions are the same operation.
pub fn binary(password: &[u8], input: &[u8]) -> (out: Vec<u8>)
    ensures
        out@ == binary_spec(password@, input@),
{
    let mut shake = new_session(password);
    let mut out: Vec<u8> = Vec::new();
    let mut i: usize = 0;
    while i < input.len()
        invariant
            session_tracks(shake, password@, i as nat),
            i <= input@.len(),
            out@.len() == i,
            forall|j: int| 0 <= j < i ==> out@[j] == input@[j] ^ ks_byte(password@, j as nat),
        decreases input@.len() - i,
    {
        let b = next_key_byte(&mut shake, Ghost(password@), Ghost(i as nat));
        out.push(input[i] ^ b);
        i += 1;
    }
    proof {
        assert(out@ =~= binary_spec(password@, input@));
    }
    out
}

/// XORing twice with the same byte gives the byte back.
proof fn lemma_xor_involutes(x: u8, k: u8)
    ensures
        (x ^ k) ^ k == x,
{
    assert((x ^ k) ^ k == x) by (bit_vector);
}

/// Sponge round-trip law: decrypting a binary encryption under the same
/// password returns the original bytes, whatever the password and input.
pub proof fn lemma_binary_roundtrip(p: Seq<u8>, input: Seq<u8>)
    ensures
        binary_spec(p, binary_spec(p, input)) == input,
{
    let once = binary_spec(p, input);
    assert forall|i: int| 0 <= i < input.len() implies binary_spec(p, once)[i] == input[i] by {
        lemma_xor_involutes(input[i], ks_byte(p, i as nat));
    }
    assert(binary_spec(p, once) =~= input);
}

/// Determinism: the keystream is a function of the password and the number of
/// bytes drawn alone, so two sessions constructed identically and fed
/// identical absorb and squeeze calls produce byte-identical output.
pub proof fn lemma_keystream_deterministic(p1: Seq<u8>, p2: Seq<u8>, n1: nat, n2: nat)
    requires
        p1 == p2,
        n1 == n2,
    ensures
        keystream(p1, n1) == keystream(p2, n2),
{
}

/// `j` draws in, the keystream byte is the first one below `len`.
pub open spec fn is_first_hit(p: Seq<u8>, pos: nat, len: int, j: nat) -> bool {
    &&& (ks_byte(p, pos + j) as int) < len
    &&& forall|m: nat| m < j ==> (#[trigger] ks_byte(p, pos + m) as int) >= len
}

/// How many keystream bytes starting at `pos` are discarded before one falls
/// below `len`. Rejection sampling returns the byte at this distance; when no
/// byte in the draw budget falls below `len` the sampler yields nothing and
/// this value is unconstrained.
pub open spec fn first_hit(p: Seq<u8>, pos: nat, len: int) -> nat {
    choose|j: nat| is_first_hit(p, pos, len, j)
}

/// The key that rejection sampling at stream position `pos` yields for an
/// alphabet of `len` symbols.
pub open spec fn key_at(p: Seq<u8>, pos: nat, len: int) -> u8 {
    ks_byte(p, pos + first_hit(p, pos, len))
}

/// A witnessed first hit pins `first_hit` down: there is only one.
proof fn lemma_first_hit_unique(p: Seq<u8>, pos: nat, len: int, j: nat)
    requires
        is_first_hit(p, pos, len, j),
    ensures
        first_hit(p, pos, len) == j,
{
    let fh = first_hit(p, pos, len);
    assert(is_first_hit(p, pos, len, fh));
    if fh < j {
        assert((ks_byte(p, pos + fh) as int) >= len);
    } else if j < fh {
        assert((ks_byte(p, pos + j) as int) >= len);
    }
}

/// How many keystream bytes the rejection sampler will draw for one key
/// before giving up. A draw is rejected with probability at most 255/256, so
/// the chance of ever exhausting this budget is below (255/256)^65536 — far
/// beyond anything a run can encounter — but it gives every loop a bound.
pub const MAX_KEY_DRAWS: usize = 65536;

/// Some one of the first `n` keystream bytes starting at `pos` falls below
/// `len`: rejection sampling succeeds within `n` draws.
pub open spec fn hit_within(p: Seq<u8>, pos: nat, len: int, n: nat) -> bool {
    exists|j: nat| j < n && (#[trigger] ks_byte(p, pos + j) as int) < len
}

/// Draws keystream bytes until one falls below `len`, discarding the rest:
/// an unbiased key in `[0, len)`. Returns `None` only if every byte in the
/// draw budget was rejected.
fn sample_key(shake: &mut Keccak, len: usize, Ghost(p): Ghost<Seq<u8>>, Ghost(pos): Ghost<nat>) -> (r: Option<
    u8,
>)
    requires
        session_tracks(*old(shake), p, pos),
        1 <= len <= 255,
    ensures
        r is Some <==> hit_within(p, pos, len as int, MAX_KEY_DRAWS as nat),
        match r {
            Some(key) => {
                &&& session_tracks(*final(shake), p, pos + first_hit(p, pos, len as int) + 1)
                &&& key == key_at(p, pos, len as int)
                &&& (key as int) < len
            },
            None => true,
        },
{
    let mut tries: usize = 0;
    while tries < MAX_KEY_DRAWS
        invariant
            session_tracks(*shake, p, pos + tries as nat),
            tries <= MAX_KEY_DRAWS,
            forall|m: nat| m < tries ==> (#[trigger] ks_byte(p, pos + m) as int) >= len,
            1 <= len <= 255,
        decreases MAX_KEY_DRAWS - tries,
    {
        let b = next_key_byte(shake, Ghost(p), Ghost(pos + tries as nat));
        if (b as usize) < len {
            proof {
                assert(is_first_hit(p, pos, len as int, tries as nat));
                lemma_first_hit_unique(p, pos, len as int, tries as nat);
                assert(hit_within(p, pos, len as int, MAX_KEY_DRAWS as nat));
            }
            return Some(b);
        }
        tries += 1;
    }
    None
}

/// True when some character of the input is not in the alphabet: the cipher
/// passed it through unencrypted and the caller is owed one warning.
pub open spec fn has_foreign(input: Seq<char>, a: Seq<char>) -> bool {
    exists|j: int| 0 <= j < input.len() && lookup_index(a, input[j]) < 0
}

proof fn lemma_has_foreign_step(input: Seq<char>, a: Seq<char>, idx: int)
    requires
        0 <= idx < input.len(),
    ensures
        has_foreign(input.take(idx + 1), a) == (has_foreign(input.take(idx), a) || lookup_index(
            a,
            input[idx],
        ) < 0),
{
    let shorter = input.take(idx);
    let longer = input.take(idx + 1);
    if has_foreign(shorter, a) {
        let j = choose|j: int| 0 <= j < shorter.len() && lookup_index(a, shorter[j]) < 0;
        assert(longer[j] == shorter[j]);
        assert(has_foreign(longer, a));
    } else if lookup_index(a, input[idx]) < 0 {
        assert(longer[idx] == input[idx]);
        assert(has_foreign(longer, a));
    } else if has_foreign(longer, a) {
        let j = choose|j: int| 0 <= j < longer.len() && lookup_index(a, longer[j]) < 0;
        if j < idx {
            assert(shorter[j] == longer[j]);
            assert(has_foreign(shorter, a));
        }
    }
}

/// What the substitution cipher returns, one character at a time from stream
/// position `pos`: a foreign character passes through and draws no keystream;
/// a character at alphabet index `i` becomes the symbol at
/// `(i + key) mod len` when encrypting, `(i - key) mod len` when decrypting,
/// and the stream moves past the bytes the key's rejection sampling drew.
pub open spec fn textual_spec(
    p: Seq<u8>,
    input: Seq<char>,
    a: Seq<char>,
    add: bool,
    pos: nat,
) -> Seq<char>
    decreases input.len(),
{
    if input.len() == 0 {
        Seq::empty()
    } else {
        let c = input[0];
        let i = lookup_index(a, c);
        if i < 0 {
            seq![c] + textual_spec(p, input.drop_first(), a, add, pos)
        } else {
            let len = a.len() as int;
            let k = key_at(p, pos, len) as int;
            let o = if add {
                (i + k) % len
            } else {
                (i - k) % len
            };
            seq![a[o]] + textual_spec(
                p,
                input.drop_first(),
                a,
                add,
                pos + first_hit(p, pos, len) + 1,
            )
        }
    }
}

/// Every key the input asks for is found within the draw budget: the cipher
/// is owed success exactly here.
pub open spec fn textual_ok(p: Seq<u8>, input: Seq<char>, a: Seq<char>, pos: nat) -> bool
    decreases input.len(),
{
    if input.len() == 0 {
        true
    } else {
        let i = lookup_index(a, input[0]);
        if i < 0 {
            textual_ok(p, input.drop_first(), a, pos)
        } else {
            let len = a.len() as int;
            hit_within(p, pos, len, MAX_KEY_DRAWS as nat) && textual_ok(
                p,
                input.drop_first(),
                a,
                pos + first_hit(p, pos, len) + 1,
            )
        }
    }
}

/// Encrypts (`add`) or decrypts (`!add`) a line of text over the given
/// alphabet, shifting each in-alphabet character by a rejection-sampled key
/// and passing foreign characters through unchanged. The boolean of the
/// result reports whether any foreign character occurred. Returns `None`
/// only if some key exhausted the sampler's draw budget.
pub fn textual(password: &[u8], input: &Vec<char>, alphabet: &Vec<char>, add: bool) -> (r: Option<
    (Vec<char>, bool),
>)
    requires
        alphabet@.len() <= 255,
    ensures
        r is Some <==> textual_ok(password@, input@, alphabet@, 0),
        match r {
            Some(v) => {
                &&& v.0@ == textual_spec(password@, input@, alphabet@, add, 0)
                &&& v.1 == has_foreign(input@, alphabet@)
            },
            None => true,
        },
{
    let mut shake = new_session(password);
    let ghost mut pos: nat = 0nat;
    let mut out: Vec<char> = Vec::new();
    let mut warned = false;
    let mut idx: usize = 0;
    proof {
        assert(input@.skip(0) =~= input@);
        assert(input@.take(0) =~= Seq::<char>::empty());
        assert(out@ + textual_spec(password@, input@, alphabet@, add, 0) =~= textual_spec(
            password@,
            input@,
            alphabet@,
            add,
            0,
        ));
    }
    while idx < input.len()
        invariant
            alphabet@.len() <= 255,
            session_tracks(shake, password@, pos),
            idx <= input@.len(),
            out@ + textual_spec(password@, input@.skip(idx as int), alphabet@, add, pos)
                == textual_spec(password@, input@, alphabet@, add, 0),
            textual_ok(password@, input@.skip(idx as int), alphabet@, pos) == textual_ok(
                password@,
                input@,
                alphabet@,
                0,
            ),
            warned == has_foreign(input@.take(idx as int), alphabet@),
        decreases input@.len() - idx,
    {
        let c = input[idx];
        let ghost rest = input@.skip(idx as int);
        proof {
            assert(rest[0] == input@[idx as int]);
            assert(rest.drop_first() =~= input@.skip(idx as int + 1));
            lemma_has_foreign_step(input@, alphabet@, idx as int);
        }
        match crate::alphabet::find_last_index(alphabet, c) {
            None => {
                let ghost out0 = out@;
                out.push(c);
                warned = true;
                proof {
                    let tail = textual_spec(
                        password@,
                        input@.skip(idx as int + 1),
                        alphabet@,
                        add,
                        pos,
                    );
                    assert(textual_spec(password@, rest, alphabet@, add, pos) == seq![c] + tail);
                    assert(out@ =~= out0.push(c));
                    assert(out0.push(c) + tail =~= out0 + (seq![c] + tail));
                }
            },
            Some(i) => {
                let ghost pos0 = pos;
                let ghost out0 = out@;
                let len = alphabet.len();
                let sampled = sample_key(&mut shake, len, Ghost(password@), Ghost(pos));
                let key = match sampled {
                    Some(key) => key,
                    None => {
                        proof {
                            assert(!textual_ok(password@, rest, alphabet@, pos));
                        }
                        return None;
                    },
                };
                let o = if add {
                    (i + key as usize) % len
                } else {
                    (i + len - key as usize) % len
                };
                out.push(alphabet[o]);
                proof {
                    let l = len as int;
                    let k = key_at(password@, pos0, l) as int;
                    pos = pos0 + first_hit(password@, pos0, l) + 1;
                    vstd::arithmetic::div_mod::lemma_mod_multiples_vanish(1, i - k, l);
                    assert(l * 1 + (i - k) == i + l - k);
                    let os = if add {
                        (i + k) % l
                    } else {
                        (i - k) % l
                    };
                    assert(o as int == os);
                    let tail = textual_spec(
                        password@,
                        input@.skip(idx as int + 1),
                        alphabet@,
                        add,
                        pos,
                    );
                    assert(textual_spec(password@, rest, alphabet@, add, pos0) == seq![
                        alphabet@[os],
                    ] + tail);
                    assert(out@ =~= out0.push(alphabet@[os]));
                    assert(out0.push(alphabet@[os]) + tail =~= out0 + (seq![alphabet@[os]] + tail));
                    assert(textual_ok(password@, rest, alphabet@, pos0) == textual_ok(
                        password@,
                        input@.skip(idx as int + 1),
                        alphabet@,
                        pos,
                    ));
                }
            },
        }
        idx += 1;
    }
    proof {
        assert(input@.skip(input@.len() as int) =~= Seq::<char>::empty());
        assert(textual_spec(password@, Seq::<char>::empty(), alphabet@, add, pos)
            =~= Seq::<char>::empty());
        assert(textual_ok(password@, Seq::<char>::empty(), alphabet@, pos));
        assert(out@ + Seq::<char>::empty() =~= out@);
        assert(input@.take(input@.len() as int) =~= input@);
    }
    Some((out, warned))
}

/// A sum shifted by `k` and shifted back lands where it started.
proof fn lemma_mod_roundtrip(i: int, k: int, len: int)
    requires
        0 <= i < len,
        0 <= k,
    ensures
        ((i + k) % len - k) % len == i,
{
    vstd::arithmetic::div_mod::lemma_fundamental_div_mod(i + k, len);
    let q = (i + k) / len;
    assert(len * (-q) == -(len * q)) by (nonlinear_arith);
    assert((i + k) % len - k == len * (-q) + i);
    vstd::arithmetic::div_mod::lemma_mod_multiples_vanish(-q, i, len);
    vstd::arithmetic::div_mod::lemma_small_mod(i as nat, len as nat);
}

/// Textual round-trip law: over a duplicate-free alphabet, decrypting an
/// encryption under the same password returns the original text, from any
/// keystream position and whether or not every character is in the alphabet.
pub proof fn lemma_textual_roundtrip(p: Seq<u8>, t: Seq<char>, a: Seq<char>, pos: nat)
    requires
        crate::alphabet::distinct(a),
    ensures
        textual_spec(p, textual_spec(p, t, a, true, pos), a, false, pos) == t,
    decreases t.len(),
{
    let enc = textual_spec(p, t, a, true, pos);
    if t.len() == 0 {
        assert(enc =~= Seq::<char>::empty());
        assert(textual_spec(p, enc, a, false, pos) =~= Seq::<char>::empty());
    } else {
        let c = t[0];
        let i = lookup_index(a, c);
        let len = a.len() as int;
        if i < 0 {
            let enc_tail = textual_spec(p, t.drop_first(), a, true, pos);
            assert(enc == seq![c] + enc_tail);
            assert(enc[0] == c);
            assert(enc.drop_first() =~= enc_tail);
            lemma_textual_roundtrip(p, t.drop_first(), a, pos);
            assert(textual_spec(p, enc, a, false, pos) == seq![c] + textual_spec(
                p,
                enc_tail,
                a,
                false,
                pos,
            ));
            assert(seq![c] + t.drop_first() =~= t);
        } else {
            crate::alphabet::lemma_lookup_index_bounds(a, c);
            let k = key_at(p, pos, len) as int;
            let o = (i + k) % len;
            vstd::arithmetic::div_mod::lemma_mod_bound(i + k, len);
            let pos2 = pos + first_hit(p, pos, len) + 1;
            let enc_tail = textual_spec(p, t.drop_first(), a, true, pos2);
            assert(enc == seq![a[o]] + enc_tail);
            assert(enc[0] == a[o]);
            assert(enc.drop_first() =~= enc_tail);
            crate::alphabet::lemma_lookup_of_element(a, o);
            lemma_mod_roundtrip(i, k, len);
            lemma_textual_roundtrip(p, t.drop_first(), a, pos2);
            assert(textual_spec(p, enc, a, false, pos) == seq![a[(o - k) % len]] + textual_spec(
                p,
                enc_tail,
                a,
                false,
                pos2,
            ));
            assert(a[(o - k) % len] == c);
            assert(seq![c] + t.drop_first() =~= t);
        }
    }
}

/// Foreign-character passthrough law: the cipher keeps the input's length,
/// and a character outside the alphabet comes through unchanged.
pub proof fn lemma_foreign_passthrough(
    p: Seq<u8>,
    t: Seq<char>,
    a: Seq<char>,
    add: bool,
    pos: nat,
    i: int,
)
    requires
        0 <= i < t.len(),
        lookup_index(a, t[i]) < 0,
    ensures
        textual_spec(p, t, a, add, pos).len() == t.len(),
        textual_spec(p, t, a, add, pos)[i] == t[i],
    decreases t.len(),
{
    lemma_textual_len(p, t, a, add, pos);
    let out = textual_spec(p, t, a, add, pos);
    let c = t[0];
    let j = lookup_index(a, c);
    let len = a.len() as int;
    let pos2 = if j < 0 {
        pos
    } else {
        pos + first_hit(p, pos, len) + 1
    };
    let tail = textual_spec(p, t.drop_first(), a, add, pos2);
    lemma_textual_len(p, t.drop_first(), a, add, pos2);
    if i == 0 {
        assert(out[0] == t[0]);
    } else {
        assert(t.drop_first()[i - 1] == t[i]);
        lemma_foreign_passthrough(p, t.drop_first(), a, add, pos2, i - 1);
        assert(out[i] == tail[i - 1]);
    }
}

/// The cipher's output has exactly one character for each of the input's.
pub proof fn lemma_textual_len(p: Seq<u8>, t: Seq<char>, a: Seq<char>, add: bool, pos: nat)
    ensures
        textual_spec(p, t, a, add, pos).len() == t.len(),
    decreases t.len(),
{
    if t.len() != 0 {
        let j = lookup_index(a, t[0]);
        let len = a.len() as int;
        let pos2 = if j < 0 {
            pos
        } else {
            pos + first_hit(p, pos, len) + 1
        };
        lemma_textual_len(p, t.drop_first(), a, add, pos2);
    }
}

/// Companion to the round-trip law: encryption and decryption sample at the
/// same stream positions, so over a duplicate-free alphabet the decryption of
/// an encryption succeeds exactly when the encryption itself did.
pub proof fn lemma_textual_roundtrip_ok(p: Seq<u8>, t: Seq<char>, a: Seq<char>, pos: nat)
    requires
        crate::alphabet::distinct(a),
    ensures
        textual_ok(p, textual_spec(p, t, a, true, pos), a, pos) == textual_ok(p, t, a, pos),
    decreases t.len(),
{
    let enc = textual_spec(p, t, a, true, pos);
    if t.len() == 0 {
        assert(enc =~= Seq::<char>::empty());
    } else {
        let c = t[0];
        let i = lookup_index(a, c);
        let len = a.len() as int;
        if i < 0 {
            let enc_tail = textual_spec(p, t.drop_first(), a, true, pos);
            assert(enc == seq![c] + enc_tail);
            assert(enc[0] == c);
            assert(enc.drop_first() =~= enc_tail);
            lemma_textual_roundtrip_ok(p, t.drop_first(), a, pos);
        } else {
            crate::alphabet::lemma_lookup_index_bounds(a, c);
            let k = key_at(p, pos, len) as int;
            let o = (i + k) % len;
            vstd::arithmetic::div_mod::lemma_mod_bound(i + k, len);
            let pos2 = pos + first_hit(p, pos, len) + 1;
            let enc_tail = textual_spec(p, t.drop_first(), a, true, pos2);
            assert(enc == seq![a[o]] + enc_tail);
            assert(enc[0] == a[o]);
            assert(enc.drop_first() =~= enc_tail);
            crate::alphabet::lemma_lookup_of_element(a, o);
            lemma_textual_roundtrip_ok(p, t.drop_first(), a, pos2);
        }
    }
}

} // verus!
