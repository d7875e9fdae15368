//! The state store's record: a single human-readable line holding the
//! seconds remaining of an interrupted countdown, together with a verified
//! encoder and parser for it.

use vstd::prelude::*;

verus! {

/// The one durable record. `seconds_remaining == 0` means there is no
/// resumable timer: either none was ever started, or the last one finished
/// cleanly.
pub struct SavedState {
    pub seconds_remaining: u64,
}

/// Decimal digits of `n` as ASCII bytes, most significant first, with no
/// leading zeros (`0` itself is the single byte `b'0'`).
pub open spec fn dec_rep(n: nat) -> Seq<u8>
    decreases n,
{
    if n < 10 {
        seq![(48 + n) as u8]
    } else {
        dec_rep(n / 10).push((48 + n % 10) as u8)
    }
}

/// The byte `}` that closes a record.
pub const CLOSE_BRACE: u8 = 125;

/// The byte `0`, the least ASCII decimal digit.
pub const DIGIT_ZERO: u8 = 48;

/// The byte `9`, the greatest ASCII decimal digit.
pub const DIGIT_NINE: u8 = 57;

/// The bytes that open a record, up to and including the colon before the
/// number: `{"seconds_remaining":` in ASCII.
pub open spec fn record_prefix() -> Seq<u8> {
    seq![
        123u8, 34u8, 115u8, 101u8, 99u8, 111u8, 110u8, 100u8, 115u8, 95u8,
        114u8, 101u8, 109u8, 97u8, 105u8, 110u8, 105u8, 110u8, 103u8, 34u8, 58u8,
    ]
}

/// The exact bytes the state store writes for a record holding `n`.
pub open spec fn encode_spec(n: u64) -> Seq<u8> {
    record_prefix() + dec_rep(n as nat) + seq![CLOSE_BRACE]
}

/// Value of a sequence of ASCII digit bytes read as a decimal number.
pub open spec fn digits_val(s: Seq<u8>) -> int
    decreases s.len(),
{
    if s.len() == 0 {
        0
    } else {
        digits_val(s.drop_last()) * 10 + (s.last() - 48)
    }
}

/// Every byte of `s` is an ASCII decimal digit.
pub open spec fn all_digits(s: Seq<u8>) -> bool {
    forall|i: int| 0 <= i < s.len() ==> 48 <= #[trigger] s[i] <= 57
}

proof fn lemma_dec_rep_props(n: nat)
    ensures
        dec_rep(n).len() >= 1,
        all_digits(dec_rep(n)),
        n > 0 ==> dec_rep(n)[0] != DIGIT_ZERO,
        n < 10 ==> dec_rep(n).len() == 1,
    decreases n,
{
    if n >= 10 {
        lemma_dec_rep_props(n / 10);
        assert(dec_rep(n)[0] == dec_rep(n / 10)[0]);
    }
}

proof fn lemma_dec_rep_val(n: nat)
    ensures
        digits_val(dec_rep(n)) == n,
    decreases n,
{
    if n < 10 {
        let s = dec_rep(n);
        assert(s.len() == 1);
        assert(s.last() == (48 + n) as u8);
        assert(s.drop_last().len() == 0);
        assert(digits_val(s.drop_last()) == 0);
        assert(digits_val(s) == (48 + n) as u8 - 48);
    } else {
        lemma_dec_rep_val(n / 10);
        let s = dec_rep(n / 10);
        let d = (48 + n % 10) as u8;
        assert(s.push(d).drop_last() =~= s);
        assert(s.push(d).last() == d);
        assert(digits_val(s.push(d)) == digits_val(s) * 10 + (d - 48));
        vstd::arithmetic::div_mod::lemma_fundamental_div_mod(n as int, 10);
    }
}

proof fn lemma_digits_val_nonneg(s: Seq<u8>)
    requires
        all_digits(s),
    ensures
        digits_val(s) >= 0,
    decreases s.len(),
{
    if s.len() > 0 {
        assert(all_digits(s.drop_last()));
        lemma_digits_val_nonneg(s.drop_last());
    }
}

proof fn lemma_digits_val_pos(s: Seq<u8>)
    requires
        s.len() >= 1,
        all_digits(s),
        s[0] != DIGIT_ZERO,
    ensures
        digits_val(s) >= 1,
    decreases s.len(),
{
    if s.len() == 1 {
        assert(48 <= s[0] <= 57);
        assert(s.last() == s[0]);
        assert(s.drop_last().len() == 0);
        assert(digits_val(s.drop_last()) == 0);
        assert(digits_val(s) == s[0] - 48);
    } else {
        assert(all_digits(s.drop_last()));
        assert(s.drop_last()[0] == s[0]);
        lemma_digits_val_pos(s.drop_last());
        assert(48 <= s.last() <= 57);
    }
}

proof fn lemma_digits_val_take_step(s: Seq<u8>, j: int)
    requires
        0 <= j < s.len(),
    ensures
        digits_val(s.take(j + 1)) == digits_val(s.take(j)) * 10 + (s[j] - 48),
{
    assert(s.take(j + 1).drop_last() =~= s.take(j));
    assert(s.take(j + 1).last() == s[j]);
}

proof fn lemma_digits_val_take_le(s: Seq<u8>, j: int)
    requires
        0 <= j <= s.len(),
        all_digits(s),
    ensures
        digits_val(s.take(j)) <= digits_val(s),
    decreases s.len() - j,
{
    if j < s.len() {
        lemma_digits_val_take_step(s, j);
        assert(all_digits(s.take(j))) by {
            assert(forall|i: int| 0 <= i < j ==> s.take(j)[i] == s[i]);
        }
        lemma_digits_val_nonneg(s.take(j));
        lemma_digits_val_take_le(s, j + 1);
    } else {
        assert(s.take(j) =~= s);
    }
}

/// A nonempty digit string without a leading zero (except `0` itself) is the
/// canonical decimal representation of its value.
proof fn lemma_digits_canonical(s: Seq<u8>)
    requires
        s.len() >= 1,
        all_digits(s),
        s.len() > 1 ==> s[0] != DIGIT_ZERO,
    ensures
        digits_val(s) >= 0,
        s == dec_rep(digits_val(s) as nat),
    decreases s.len(),
{
    lemma_digits_val_nonneg(s);
    if s.len() == 1 {
        let v = digits_val(s);
        assert(s.last() == s[0]);
        assert(s.drop_last().len() == 0);
        assert(digits_val(s.drop_last()) == 0);
        assert(v == s[0] - 48);
        assert(s =~= dec_rep(v as nat));
    } else {
        let s0 = s.drop_last();
        assert(all_digits(s0));
        assert(s0[0] == s[0]);
        lemma_digits_canonical(s0);
        lemma_digits_val_pos(s0);
        let v0 = digits_val(s0);
        let d = s.last() - 48;
        let v = digits_val(s);
        assert(v == v0 * 10 + d);
        vstd::arithmetic::div_mod::lemma_fundamental_div_mod_converse_div(v, 10, v0, d);
        vstd::arithmetic::div_mod::lemma_fundamental_div_mod_converse_mod(v, 10, v0, d);
        assert(v >= 10);
        assert(dec_rep(v as nat) == dec_rep((v / 10) as nat).push((48 + (v as nat) % 10) as u8));
        assert(s =~= s0.push(s.last()));
    }
}

/// Each value has exactly one record encoding: equal encodings carry equal
/// values. Together with `parse_state`'s contract this makes save-then-load
/// the identity, whatever was saved.
pub proof fn lemma_encode_injective(a: u64, b: u64)
    requires
        encode_spec(a) == encode_spec(b),
    ensures
        a == b,
{
    lemma_dec_rep_props(a as nat);
    lemma_dec_rep_props(b as nat);
    let la = dec_rep(a as nat).len() as int;
    let lb = dec_rep(b as nat).len() as int;
    assert(encode_spec(a).len() == 21 + la + 1);
    assert(encode_spec(b).len() == 21 + lb + 1);
    assert(la == lb);
    assert forall|j: int| 0 <= j < la implies dec_rep(a as nat)[j] == dec_rep(b as nat)[j] by {
        assert(encode_spec(a)[21 + j] == (record_prefix() + dec_rep(a as nat))[21 + j]);
        assert((record_prefix() + dec_rep(a as nat))[21 + j] == dec_rep(a as nat)[j]);
        assert(encode_spec(b)[21 + j] == (record_prefix() + dec_rep(b as nat))[21 + j]);
        assert((record_prefix() + dec_rep(b as nat))[21 + j] == dec_rep(b as nat)[j]);
    }
    assert(dec_rep(a as nat) =~= dec_rep(b as nat));
    lemma_dec_rep_val(a as nat);
    lemma_dec_rep_val(b as nat);
}

fn record_prefix_bytes() -> (v: Vec<u8>)
    ensures
        v@ == record_prefix(),
{
    let mut v: Vec<u8> = Vec::new();
    v.push(123);
    v.push(34);
    v.push(115);
    v.push(101);
    v.push(99);
    v.push(111);
    v.push(110);
    v.push(100);
    v.push(115);
    v.push(95);
    v.push(114);
    v.push(101);
    v.push(109);
    v.push(97);
    v.push(105);
    v.push(110);
    v.push(105);
    v.push(110);
    v.push(103);
    v.push(34);
    v.push(58);
    proof {
        assert(v@ =~= record_prefix());
    }
    v
}

fn push_digits(out: &mut Vec<u8>, n: u64)
    ensures
        final(out)@ == old(out)@ + dec_rep(n as nat),
    decreases n,
{
    if n < 10 {
        out.push(DIGIT_ZERO + n as u8);
        proof {
            assert(out@ =~= old(out)@ + dec_rep(n as nat));
        }
    } else {
        push_digits(out, n / 10);
        out.push(DIGIT_ZERO + (n % 10) as u8);
        proof {
            assert(out@ =~= old(out)@ + dec_rep(n as nat));
        }
    }
}

/// The shape every record encoding has, stated over absolute byte positions.
proof fn lemma_encode_facts(n: u64)
    ensures
        dec_rep(n as nat).len() >= 1,
        encode_spec(n).len() == 22 + dec_rep(n as nat).len(),
        forall|j: int| 0 <= j < 21 ==> #[trigger] encode_spec(n)[j] == record_prefix()[j],
        forall|j: int| 21 <= j < encode_spec(n).len() - 1 ==> #[trigger] encode_spec(n)[j]
            == dec_rep(n as nat)[j - 21],
        forall|j: int| 21 <= j < encode_spec(n).len() - 1 ==> 48 <= #[trigger] encode_spec(n)[j]
            <= 57,
        encode_spec(n)[encode_spec(n).len() - 1] == CLOSE_BRACE,
        all_digits(dec_rep(n as nat)),
        digits_val(dec_rep(n as nat)) == n,
        n > 0 ==> dec_rep(n as nat)[0] != DIGIT_ZERO,
        n < 10 ==> dec_rep(n as nat).len() == 1,
{
    lemma_dec_rep_props(n as nat);
    lemma_dec_rep_val(n as nat);
    let p = record_prefix();
    let d = dec_rep(n as nat);
    let ln = d.len() as int;
    assert forall|j: int| 0 <= j < 21 implies encode_spec(n)[j] == record_prefix()[j] by {
        assert(encode_spec(n)[j] == (p + d)[j]);
        assert((p + d)[j] == p[j]);
    }
    assert forall|j: int| 21 <= j < encode_spec(n).len() - 1 implies encode_spec(n)[j] == d[j
        - 21] by {
        assert(encode_spec(n)[j] == (p + d)[j]);
        assert((p + d)[j] == d[j - 21]);
    }
    assert(encode_spec(n)[21 + ln] == seq![CLOSE_BRACE][0]);
}

/// Encode a record as the exact bytes the state file holds.
pub fn encode_state(state: &SavedState) -> (r: Vec<u8>)
    ensures
        r@ == encode_spec(state.seconds_remaining),
{
    let mut v = record_prefix_bytes();
    push_digits(&mut v, state.seconds_remaining);
    v.push(CLOSE_BRACE);
    proof {
        assert(v@ =~= encode_spec(state.seconds_remaining));
    }
    v
}

/// Parse a state record: the stored value when the bytes are exactly a
/// record encoding, `None` on anything else.
pub fn parse_state(bytes: &Vec<u8>) -> (r: Option<SavedState>)
    ensures
        r matches Some(st) ==> bytes@ == encode_spec(st.seconds_remaining),
        forall|n: u64| bytes@ == encode_spec(n) ==> r == Some(SavedState { seconds_remaining: n }),
{
    if bytes.len() < 23 {
        proof {
            assert forall|n: u64| bytes@ != encode_spec(n) by {
                lemma_encode_facts(n);
            }
        }
        return None;
    }
    let prefix = record_prefix_bytes();
    let mut i: usize = 0;
    while i < 21
        invariant
            0 <= i <= 21,
            bytes@.len() >= 23,
            prefix@ == record_prefix(),
            forall|j: int| 0 <= j < i ==> bytes@[j] == record_prefix()[j],
        decreases 21 - i,
    {
        if bytes[i] != prefix[i] {
            proof {
                assert forall|n: u64| bytes@ != encode_spec(n) by {
                    if bytes@ == encode_spec(n) {
                        lemma_encode_facts(n);
                        assert(bytes@[i as int] == record_prefix()[i as int]);
                        assert(false);
                    }
                }
            }
            return None;
        }
        i += 1;
    }
    let mut val: u64 = 0;
    while i < bytes.len() && bytes[i] >= DIGIT_ZERO && bytes[i] <= DIGIT_NINE
        invariant
            21 <= i <= bytes@.len(),
            bytes@.len() >= 23,
            forall|j: int| 0 <= j < 21 ==> bytes@[j] == record_prefix()[j],
            forall|j: int| 21 <= j < i ==> 48 <= #[trigger] bytes@[j] <= 57,
            val == digits_val(bytes@.subrange(21, i as int)),
        decreases bytes@.len() - i,
    {
        let d = bytes[i] - 48;
        proof {
            // On a well-formed record the scanned region is a proper prefix
            // of the digits, so the next value still fits in a u64.
            assert forall|n: u64|
                bytes@ == encode_spec(n) implies (val * 10 + d) <= n by {
                lemma_encode_facts(n);
                let dg = dec_rep(n as nat);
                let ln = dg.len() as int;
                if i as int >= 21 + ln {
                    assert(bytes@[21 + ln] == CLOSE_BRACE);
                    assert(48 <= bytes@[21 + ln] <= 57);
                    assert(false);
                }
                assert(bytes@.subrange(21, i as int) =~= dg.take(i as int - 21)) by {
                    assert(forall|j: int| 0 <= j < i as int - 21 ==> bytes@.subrange(
                        21,
                        i as int,
                    )[j] == #[trigger] bytes@[21 + j]);
                    assert(forall|j: int| 0 <= j < i as int - 21 ==> #[trigger] bytes@[21 + j]
                        == dg[j]);
                }
                lemma_digits_val_take_step(dg, i as int - 21);
                assert(bytes@[i as int] == dg[i as int - 21]);
                assert(digits_val(dg.take(i as int - 21 + 1)) == val * 10 + d);
                lemma_digits_val_take_le(dg, i as int - 21 + 1);
            }
        }
        let v10 = match val.checked_mul(10) {
            Some(v) => v,
            None => {
                proof {
                    assert forall|n: u64| bytes@ != encode_spec(n) by {
                        if bytes@ == encode_spec(n) {
                            assert(val * 10 + d <= n);
                            assert(false);
                        }
                    }
                }
                return None;
            },
        };
        let v = match v10.checked_add(d as u64) {
            Some(v) => v,
            None => {
                proof {
                    assert forall|n: u64| bytes@ != encode_spec(n) by {
                        if bytes@ == encode_spec(n) {
                            assert(val * 10 + d <= n);
                            assert(false);
                        }
                    }
                }
                return None;
            },
        };
        proof {
            assert(bytes@.subrange(21, i as int + 1).drop_last() =~= bytes@.subrange(
                21,
                i as int,
            ));
            assert(bytes@.subrange(21, i as int + 1).last() == bytes@[i as int]);
            assert(digits_val(bytes@.subrange(21, i as int + 1)) == val * 10 + d);
        }
        val = v;
        i += 1;
    }
    if i >= bytes.len() {
        proof {
            assert forall|n: u64| bytes@ != encode_spec(n) by {
                if bytes@ == encode_spec(n) {
                    lemma_encode_facts(n);
                    assert(48 <= bytes@[bytes@.len() - 1] <= 57);
                    assert(false);
                }
            }
        }
        return None;
    }
    if bytes[i] != CLOSE_BRACE {
        proof {
            assert forall|n: u64| bytes@ != encode_spec(n) by {
                if bytes@ == encode_spec(n) {
                    lemma_encode_facts(n);
                    if (i as int) < bytes@.len() - 1 {
                        assert(48 <= bytes@[i as int] <= 57);
                    }
                    assert(false);
                }
            }
        }
        return None;
    }
    if i + 1 != bytes.len() {
        proof {
            assert forall|n: u64| bytes@ != encode_spec(n) by {
                if bytes@ == encode_spec(n) {
                    lemma_encode_facts(n);
                    if (i as int) < bytes@.len() - 1 {
                        assert(48 <= bytes@[i as int] <= 57);
                    }
                    assert(false);
                }
            }
        }
        return None;
    }
    if i == 21 {
        proof {
            assert forall|n: u64| bytes@ != encode_spec(n) by {
                if bytes@ == encode_spec(n) {
                    lemma_encode_facts(n);
                    assert(48 <= bytes@[21] <= 57);
                    assert(false);
                }
            }
        }
        return None;
    }
    if i > 22 && bytes[21] == DIGIT_ZERO {
        proof {
            assert forall|n: u64| bytes@ != encode_spec(n) by {
                if bytes@ == encode_spec(n) {
                    lemma_encode_facts(n);
                    // a leading zero digit means the value is 0, whose record
                    // is exactly 23 bytes long, so the scan stopped at 22
                    assert(bytes@[21] == dec_rep(n as nat)[0]);
                    assert(n == 0);
                    assert(bytes@.len() == 23);
                    assert(48 <= bytes@[i as int] <= 57 || i as int == 22);
                    assert(false);
                }
            }
        }
        return None;
    }
    proof {
        let digits = bytes@.subrange(21, i as int);
        assert(digits.len() >= 1);
        assert(all_digits(digits)) by {
            assert(forall|j: int| 0 <= j < digits.len() ==> #[trigger] digits[j] == bytes@[21
                + j]);
        }
        assert(digits.len() > 1 ==> digits[0] != DIGIT_ZERO);
        lemma_digits_canonical(digits);
        assert(digits == dec_rep(val as nat));
        assert(bytes@ =~= encode_spec(val)) by {
            let p = record_prefix();
            assert(encode_spec(val).len() == 21 + digits.len() + 1);
            assert forall|j: int| 0 <= j < bytes@.len() implies bytes@[j] == encode_spec(val)[j] by {
                if j < 21 {
                    assert(encode_spec(val)[j] == (p + digits)[j]);
                    assert((p + digits)[j] == p[j]);
                } else if j < i as int {
                    assert(encode_spec(val)[j] == (p + digits)[j]);
                    assert((p + digits)[j] == digits[j - 21]);
                    assert(digits[j - 21] == bytes@[j]);
                } else {
                    assert(encode_spec(val)[j] == seq![CLOSE_BRACE][0]);
                }
            }
        }
        assert forall|n: u64|
            bytes@ == encode_spec(n) implies Some(
            SavedState { seconds_remaining: val },
        ) == Some(SavedState { seconds_remaining: n }) by {
            lemma_encode_injective(n, val);
        }
    }
    Some(SavedState { seconds_remaining: val })
}

/// Best-effort recovery at startup: a readable record yields its stored
/// value; a missing, empty or corrupt file resets to 0 seconds remaining,
/// never an error.
pub fn state_from_bytes(bytes: &Vec<u8>) -> (st: SavedState)
    ensures
        forall|n: u64| bytes@ == encode_spec(n) ==> st.seconds_remaining == n,
        (forall|n: u64| bytes@ != encode_spec(n)) ==> st.seconds_remaining == 0,
{
    match parse_state(bytes) {
        Some(st) => st,
        None => SavedState { seconds_remaining: 0 },
    }
}

} // verus!
