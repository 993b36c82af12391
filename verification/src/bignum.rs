//! Arbitrary-size natural numbers, stored as little-endian byte strings.
//!
//! A [`BigNat`] carries the magnitude of a field element or of the field
//! prime.  Its mathematical value is given by [`bytes_val`]; a well-formed
//! value is canonical (no trailing zero byte), which makes the byte string a
//! unique representation of the value.  The heavy arithmetic (radix
//! conversion and modular reduction) is delegated to `num_bigint` through
//! trusted wrappers whose contracts are stated over [`bytes_val`] and
//! [`dec_val`].

use vstd::prelude::*;

verus! {

/// 256^n.
pub open spec fn pow256(n: nat) -> nat
    decreases n,
{
    if n == 0 {
        1
    } else {
        256 * pow256((n - 1) as nat)
    }
}

/// The value of a little-endian byte string: byte `i` contributes `s[i] * 256^i`.
pub open spec fn bytes_val(s: Seq<u8>) -> nat
    decreases s.len(),
{
    if s.len() == 0 {
        0
    } else {
        s[0] as nat + 256 * bytes_val(s.skip(1))
    }
}

/// A byte string is canonical when it has no trailing zero byte; canonical
/// strings represent their value uniquely.
pub open spec fn canonical(s: Seq<u8>) -> bool {
    s.len() == 0 || s[s.len() - 1] != 0
}

pub open spec fn is_dec_digit(c: char) -> bool {
    48 <= c as int && c as int <= 57
}

pub open spec fn digit_val(c: char) -> nat {
    (c as int - 48) as nat
}

/// A non-empty string of decimal digits.
pub open spec fn is_dec_seq(s: Seq<char>) -> bool {
    s.len() > 0 && (forall|i: int| 0 <= i < s.len() ==> is_dec_digit(#[trigger] s[i]))
}

/// The value of a decimal digit string, most significant digit first.
pub open spec fn dec_val(s: Seq<char>) -> nat
    decreases s.len(),
{
    if s.len() == 0 {
        0
    } else {
        10 * dec_val(s.drop_last()) + digit_val(s.last())
    }
}

pub proof fn lemma_bytes_val_push(s: Seq<u8>, b: u8)
    ensures
        bytes_val(s.push(b)) == bytes_val(s) + (b as nat) * pow256(s.len()),
    decreases s.len(),
{
    if s.len() == 0 {
        assert(bytes_val(Seq::<u8>::empty()) == 0);
        assert(s.push(b).skip(1) =~= Seq::<u8>::empty());
        assert(s.push(b)[0] == b);
        assert(bytes_val(s.push(b)) == b as nat);
        assert(pow256(0) == 1);
    } else {
        assert(s.push(b).skip(1) =~= s.skip(1).push(b));
        lemma_bytes_val_push(s.skip(1), b);
        assert(pow256(s.len()) == 256 * pow256((s.len() - 1) as nat));
        assert(256 * ((b as nat) * pow256((s.len() - 1) as nat)) == (b as nat) * (256 * pow256(
            (s.len() - 1) as nat,
        ))) by (nonlinear_arith);
    }
}

pub proof fn lemma_bytes_val_drop_last_zero(s: Seq<u8>)
    requires
        s.len() > 0,
        s.last() == 0,
    ensures
        bytes_val(s.drop_last()) == bytes_val(s),
{
    assert(s =~= s.drop_last().push(s.last()));
    lemma_bytes_val_push(s.drop_last(), s.last());
}

pub proof fn lemma_bytes_val_canonical_pos(s: Seq<u8>)
    requires
        canonical(s),
        s.len() > 0,
    ensures
        bytes_val(s) > 0,
    decreases s.len(),
{
    if s.len() == 1 {
        assert(s.skip(1) =~= Seq::<u8>::empty());
    } else {
        assert(s.skip(1)[s.len() - 2] == s[s.len() - 1]);
        assert(canonical(s.skip(1)));
        lemma_bytes_val_canonical_pos(s.skip(1));
    }
}

pub proof fn lemma_pow256_pos(n: nat)
    ensures
        pow256(n) >= 1,
    decreases n,
{
    if n > 0 {
        lemma_pow256_pos((n - 1) as nat);
    }
}

pub proof fn lemma_pow256_mono(i: nat, j: nat)
    requires
        i <= j,
    ensures
        pow256(i) <= pow256(j),
    decreases j - i,
{
    if i < j {
        lemma_pow256_mono(i, (j - 1) as nat);
        lemma_pow256_pos((j - 1) as nat);
    }
}

/// A byte string of length `n` holds a value below `256^n`.
pub proof fn lemma_bytes_val_upper(s: Seq<u8>)
    ensures
        bytes_val(s) < pow256(s.len()),
    decreases s.len(),
{
    if s.len() > 0 {
        lemma_bytes_val_upper(s.skip(1));
        assert(pow256(s.len()) == 256 * pow256((s.len() - 1) as nat));
    }
}

/// A canonical byte string of length `n > 0` holds a value of at least
/// `256^(n-1)`.
pub proof fn lemma_bytes_val_lower(s: Seq<u8>)
    requires
        canonical(s),
        s.len() > 0,
    ensures
        bytes_val(s) >= pow256((s.len() - 1) as nat),
    decreases s.len(),
{
    if s.len() == 1 {
        assert(s.skip(1) =~= Seq::<u8>::empty());
    } else {
        assert(s.skip(1)[s.len() - 2] == s[s.len() - 1]);
        assert(canonical(s.skip(1)));
        lemma_bytes_val_lower(s.skip(1));
        assert(pow256((s.len() - 1) as nat) == 256 * pow256((s.len() - 2) as nat));
    }
}

/// Most-significant-byte-first comparison: with the bytes above `i` equal
/// and the bytes at `i` ordered, the values are ordered.
pub proof fn lemma_bytes_val_msb_lt(s: Seq<u8>, t: Seq<u8>, i: int)
    requires
        s.len() == t.len(),
        0 <= i < s.len(),
        forall|j: int| i < j < s.len() ==> s[j] == t[j],
        s[i] < t[i],
    ensures
        bytes_val(s) < bytes_val(t),
    decreases s.len(),
{
    assert(s =~= s.drop_last().push(s.last()));
    assert(t =~= t.drop_last().push(t.last()));
    lemma_bytes_val_push(s.drop_last(), s.last());
    lemma_bytes_val_push(t.drop_last(), t.last());
    let p = pow256((s.len() - 1) as nat);
    if i == s.len() - 1 {
        lemma_bytes_val_upper(s.drop_last());
        assert(bytes_val(s.drop_last()) < p);
        assert((s[i] as nat) * p + p <= (t[i] as nat) * p) by (nonlinear_arith)
            requires
                (s[i] as nat) + 1 <= t[i] as nat,
                p >= 0,
        ;
    } else {
        assert(s.last() == t.last());
        assert forall|j: int| i < j < s.drop_last().len() implies s.drop_last()[j]
            == t.drop_last()[j] by {
            assert(s.drop_last()[j] == s[j] && t.drop_last()[j] == t[j]);
        }
        assert(s.drop_last()[i] == s[i] && t.drop_last()[i] == t[i]);
        lemma_bytes_val_msb_lt(s.drop_last(), t.drop_last(), i);
    }
}

/// A canonical byte string is determined by its value.
pub proof fn lemma_bytes_val_injective(a: Seq<u8>, b: Seq<u8>)
    requires
        canonical(a),
        canonical(b),
        bytes_val(a) == bytes_val(b),
    ensures
        a == b,
    decreases a.len(),
{
    if a.len() == 0 {
        if b.len() > 0 {
            lemma_bytes_val_canonical_pos(b);
        }
        assert(a =~= b);
    } else if b.len() == 0 {
        lemma_bytes_val_canonical_pos(a);
    } else {
        let va = bytes_val(a.skip(1));
        let vb = bytes_val(b.skip(1));
        assert(a[0] == b[0] && va == vb);
        if a.len() > 1 {
            assert(a.skip(1)[a.len() - 2] == a[a.len() - 1]);
        }
        if b.len() > 1 {
            assert(b.skip(1)[b.len() - 2] == b[b.len() - 1]);
        }
        assert(canonical(a.skip(1)));
        assert(canonical(b.skip(1)));
        lemma_bytes_val_injective(a.skip(1), b.skip(1));
        assert forall|i: int| 0 <= i < a.len() implies a[i] == b[i] by {
            if i > 0 {
                assert(a.skip(1)[i - 1] == a[i]);
                assert(b.skip(1)[i - 1] == b[i]);
            }
        }
        assert(a =~= b);
    }
}

pub proof fn lemma_dec_val_take_step(s: Seq<char>, i: int)
    requires
        0 <= i < s.len(),
    ensures
        dec_val(s.take(i + 1)) == 10 * dec_val(s.take(i)) + digit_val(s[i]),
{
    assert(s.take(i + 1).drop_last() =~= s.take(i));
    assert(s.take(i + 1).last() == s[i]);
}

pub proof fn lemma_dec_val_take_mono(s: Seq<char>, i: int, j: int)
    requires
        0 <= i <= j <= s.len(),
    ensures
        dec_val(s.take(i)) <= dec_val(s.take(j)),
    decreases j - i,
{
    if i < j {
        lemma_dec_val_take_mono(s, i, j - 1);
        lemma_dec_val_take_step(s, j - 1);
    }
}

/// Relies on `num_bigint::BigUint::parse_bytes` with radix 10 (which accepts a
/// non-empty all-digit string and returns its decimal value) and on
/// `BigUint::to_bytes_le` (which returns the little-endian bytes of that value).
#[verifier::external_body]
fn parse_dec_bytes(s: &str) -> (r: Vec<u8>)
    requires
        is_dec_seq(s@),
    ensures
        bytes_val(r@) == dec_val(s@),
{
    let n = num_bigint::BigUint::parse_bytes(s.as_bytes(), 10).unwrap();
    n.to_bytes_le()
}

/// Relies on `num_bigint::BigUint`: `from_bytes_le` reads a little-endian byte
/// string, `%` computes the remainder, `to_bytes_le` writes it back.
#[verifier::external_body]
fn mod_bytes(a: &Vec<u8>, m: &Vec<u8>) -> (r: Vec<u8>)
    requires
        bytes_val(m@) > 0,
    ensures
        bytes_val(r@) == bytes_val(a@) % bytes_val(m@),
{
    let x = num_bigint::BigUint::from_bytes_le(a);
    let y = num_bigint::BigUint::from_bytes_le(m);
    (x % y).to_bytes_le()
}

/// Relies on `num_bigint::BigUint::to_str_radix(10)`: the result is a
/// non-empty string of decimal digits whose value is the number itself.
#[verifier::external_body]
fn dec_string_bytes(b: &Vec<u8>) -> (r: String)
    ensures
        is_dec_seq(r@),
        dec_val(r@) == bytes_val(b@),
{
    num_bigint::BigUint::from_bytes_le(b).to_str_radix(10)
}

/// Drop trailing zero bytes; the value is unchanged.
fn normalize(bytes: &mut Vec<u8>)
    ensures
        canonical(final(bytes)@),
        bytes_val(final(bytes)@) == bytes_val(old(bytes)@),
{
    while bytes.len() > 0 && bytes[bytes.len() - 1] == 0
        invariant
            bytes_val(bytes@) == bytes_val(old(bytes)@),
        decreases bytes@.len(),
    {
        proof {
            lemma_bytes_val_drop_last_zero(bytes@);
        }
        bytes.pop();
    }
}

fn check_dec(s: &str) -> (r: bool)
    ensures
        r == is_dec_seq(s@),
{
    let n = s.unicode_len();
    if n == 0 {
        return false;
    }
    let mut i: usize = 0;
    while i < n
        invariant
            n == s@.len(),
            i <= n,
            forall|j: int| 0 <= j < i ==> is_dec_digit(#[trigger] s@[j]),
        decreases n - i,
    {
        let c = s.get_char(i);
        let cv = c as u32;
        if cv < 48 || cv > 57 {
            assert(!is_dec_digit(s@[i as int]));
            return false;
        }
        assert(is_dec_digit(s@[i as int]));
        i += 1;
    }
    true
}

/// Parse a decimal digit string into a `usize`; rejects non-digit strings and
/// values that do not fit.
pub fn parse_dec_usize(s: &str) -> (r: Option<usize>)
    ensures
        match r {
            Some(v) => is_dec_seq(s@) && v == dec_val(s@),
            None => !is_dec_seq(s@) || dec_val(s@) > usize::MAX,
        },
{
    if !check_dec(s) {
        return None;
    }
    let n = s.unicode_len();
    let mut v: usize = 0;
    let mut i: usize = 0;
    while i < n
        invariant
            is_dec_seq(s@),
            n == s@.len(),
            i <= n,
            v == dec_val(s@.take(i as int)),
        decreases n - i,
    {
        let c = s.get_char(i);
        assert(is_dec_digit(s@[i as int]));
        let d: usize = (c as u32 as usize) - 48;
        proof {
            lemma_dec_val_take_step(s@, i as int);
        }
        if v > (usize::MAX - d) / 10 {
            proof {
                let q = (usize::MAX - d) / 10;
                assert(usize::MAX - d == 10 * q + (usize::MAX - d) % 10);
                assert(10 * v + d > usize::MAX);
                lemma_dec_val_take_mono(s@, i + 1, s@.len() as int);
                assert(s@.take(s@.len() as int) =~= s@);
            }
            return None;
        }
        proof {
            let q = (usize::MAX - d) / 10;
            assert(usize::MAX - d == 10 * q + (usize::MAX - d) % 10);
            assert(10 * v + d <= usize::MAX);
        }
        v = v * 10 + d;
        i += 1;
    }
    proof {
        assert(s@.take(n as int) =~= s@);
    }
    Some(v)
}

/// An arbitrary-size natural number: the magnitude of a field element or of
/// the field prime.
#[derive(Debug, PartialEq, Eq)]
pub struct BigNat {
    bytes: Vec<u8>,
}

impl BigNat {
    /// The number this value stands for.
    pub closed spec fn value(&self) -> nat {
        bytes_val(self.bytes@)
    }

    /// The stored byte string is canonical.
    pub closed spec fn wf(&self) -> bool {
        canonical(self.bytes@)
    }

    pub fn from_u64(n: u64) -> (r: BigNat)
        ensures
            r.wf(),
            r.value() == n,
    {
        let mut bytes: Vec<u8> = Vec::new();
        let mut m: u64 = n;
        proof {
            assert(pow256(0) == 1);
            assert(bytes@ =~= Seq::<u8>::empty());
            assert(bytes_val(Seq::<u8>::empty()) == 0);
        }
        while m != 0
            invariant
                bytes_val(bytes@) + (m as nat) * pow256(bytes@.len()) == n as nat,
                m != 0 || canonical(bytes@),
            decreases m,
    {
            let b: u8 = (m % 256) as u8;
            proof {
                lemma_bytes_val_push(bytes@, b);
                let q = (m as nat) / 256;
                let p = pow256(bytes@.len());
                assert(m as nat == 256 * q + (m % 256) as nat);
                assert((256 * q + (b as nat)) * p == q * (256 * p) + (b as nat) * p)
                    by (nonlinear_arith);
                assert(pow256((bytes@.len() + 1) as nat) == 256 * pow256(bytes@.len()));
            }
            bytes.push(b);
            m = m / 256;
        }
        proof {
            assert((0 as nat) * pow256(bytes@.len()) == 0) by (nonlinear_arith);
        }
        BigNat { bytes }
    }

    pub fn is_zero(&self) -> (b: bool)
        requires
            self.wf(),
        ensures
            b == (self.value() == 0),
    {
        proof {
            if self.bytes@.len() > 0 {
                lemma_bytes_val_canonical_pos(self.bytes@);
            }
        }
        self.bytes.len() == 0
    }

    /// Parse a non-empty decimal digit string; any other string is rejected.
    pub fn from_decimal(s: &str) -> (r: Option<BigNat>)
        ensures
            is_dec_seq(s@) ==> (r matches Some(b) && b.wf() && b.value() == dec_val(s@)),
            !is_dec_seq(s@) ==> r is None,
    {
        if !check_dec(s) {
            return None;
        }
        let mut bytes = parse_dec_bytes(s);
        normalize(&mut bytes);
        Some(BigNat { bytes })
    }

    /// Structural equality of canonical representations coincides with value
    /// equality.
    pub fn eq_val(&self, other: &BigNat) -> (r: bool)
        requires
            self.wf(),
            other.wf(),
        ensures
            r == (self.value() == other.value()),
    {
        proof {
            if self.value() == other.value() {
                lemma_bytes_val_injective(self.bytes@, other.bytes@);
            }
        }
        if self.bytes.len() != other.bytes.len() {
            return false;
        }
        let mut i: usize = 0;
        while i < self.bytes.len()
            invariant
                self.bytes@.len() == other.bytes@.len(),
                i <= self.bytes@.len(),
                self.value() == other.value() ==> self.bytes@ == other.bytes@,
                forall|j: int| 0 <= j < i ==> self.bytes@[j] == other.bytes@[j],
            decreases self.bytes@.len() - i,
        {
            if self.bytes[i] != other.bytes[i] {
                return false;
            }
            i += 1;
        }
        proof {
            assert(self.bytes@ =~= other.bytes@);
        }
        true
    }

    /// Value ordering of canonical representations: shorter strings hold
    /// smaller values, equal-length strings compare by the most significant
    /// differing byte.
    pub fn lt_val(&self, other: &BigNat) -> (r: bool)
        requires
            self.wf(),
            other.wf(),
        ensures
            r == (self.value() < other.value()),
    {
        if self.bytes.len() != other.bytes.len() {
            proof {
                if self.bytes@.len() < other.bytes@.len() {
                    lemma_bytes_val_upper(self.bytes@);
                    lemma_bytes_val_lower(other.bytes@);
                    lemma_pow256_mono(self.bytes@.len(), (other.bytes@.len() - 1) as nat);
                } else {
                    lemma_bytes_val_upper(other.bytes@);
                    lemma_bytes_val_lower(self.bytes@);
                    lemma_pow256_mono(other.bytes@.len(), (self.bytes@.len() - 1) as nat);
                }
            }
            return self.bytes.len() < other.bytes.len();
        }
        let mut i: usize = self.bytes.len();
        while i > 0
            invariant
                self.bytes@.len() == other.bytes@.len(),
                i <= self.bytes@.len(),
                forall|j: int| i <= j < self.bytes@.len() ==> self.bytes@[j] == other.bytes@[j],
            decreases i,
        {
            i -= 1;
            let a = self.bytes[i];
            let b = other.bytes[i];
            if a != b {
                proof {
                    if a < b {
                        lemma_bytes_val_msb_lt(self.bytes@, other.bytes@, i as int);
                    } else {
                        lemma_bytes_val_msb_lt(other.bytes@, self.bytes@, i as int);
                    }
                }
                return a < b;
            }
        }
        proof {
            assert(self.bytes@ =~= other.bytes@);
        }
        false
    }

    /// The remainder of this value modulo `m`.
    pub fn reduce_mod(&self, m: &BigNat) -> (r: BigNat)
        requires
            m.value() > 0,
        ensures
            r.wf(),
            r.value() == self.value() % m.value(),
            r.value() < m.value(),
    {
        let mut bytes = mod_bytes(&self.bytes, &m.bytes);
        normalize(&mut bytes);
        proof {
            assert(bytes_val(self.bytes@) % bytes_val(m.bytes@) < bytes_val(m.bytes@))
                by (nonlinear_arith)
                requires
                    bytes_val(m.bytes@) > 0,
            ;
        }
        BigNat { bytes }
    }

    /// Stable decimal rendering for diagnostics; parsing it back yields the
    /// same value.
    pub fn to_decimal_string(&self) -> (r: String)
        ensures
            is_dec_seq(r@),
            dec_val(r@) == self.value(),
    {
        dec_string_bytes(&self.bytes)
    }

}

} // verus!
