//! What holds of how items are written down, hashed and signed.

use crate::address::{IpAddr, SocketAddr};
use crate::crypto::{sha1_digest, signature_holds};
use crate::id::id_of_bytes;
use crate::item::{
    bencoded, decimal, immutable_target, mutable_target, signable, signed_decimal, ItemView,
};
use crate::tokens::{ip_bytes, number_bytes, token_for, TokensView};
use vstd::arithmetic::power::*;
use vstd::prelude::*;

verus! {

/// The number that decimal digits spell.
pub open spec fn spelled(digits: Seq<u8>) -> int
    decreases digits.len(),
{
    if digits.len() == 0 {
        0
    } else {
        spelled(digits.drop_last()) * 10 + (digits.last() - 48)
    }
}

/// A number is written in decimal digits that spell it, without a leading zero.
pub proof fn law_decimals_spell_their_number(n: nat)
    ensures
        spelled(decimal(n)) == n,
        decimal(n).len() > 0,
        forall|i: int| 0 <= i < decimal(n).len() ==> 48 <= #[trigger] decimal(n)[i] <= 57,
        decimal(n).len() > 1 ==> decimal(n)[0] != 48,
    decreases n,
{
    if n >= 10 {
        law_decimals_spell_their_number(n / 10);
        let front = decimal(n / 10);
        let all = decimal(n);
        assert(all.drop_last() =~= front);
        assert(front.len() == 1 ==> spelled(front) == front[0] - 48) by {
            if front.len() == 1 {
                assert(front.drop_last() =~= Seq::empty());
                reveal_with_fuel(spelled, 2);
            }
        }
        assert forall|i: int| 0 <= i < all.len() implies 48 <= #[trigger] all[i] <= 57 by {
            if i < front.len() {
                assert(all[i] == front[i]);
            }
        }
        assert(all[0] == front[0]);
    } else {
        reveal_with_fuel(spelled, 2);
        assert(decimal(n).drop_last() =~= Seq::empty());
    }
}

/// A number with its sign: a minus and the digits of its size where it is negative, and its digits
/// otherwise.
pub proof fn law_signs_come_first(n: int)
    ensures
        n >= 0 ==> spelled(signed_decimal(n)) == n && signed_decimal(n)[0] != 45,
        n < 0 ==> signed_decimal(n)[0] == 45 && spelled(signed_decimal(n).skip(1)) == -n,
{
    if n >= 0 {
        law_decimals_spell_their_number(n as nat);
    } else {
        law_decimals_spell_their_number((-n) as nat);
        assert(signed_decimal(n).skip(1) =~= decimal((-n) as nat));
    }
}

/// A byte string in bencoding is its length in digits, a colon and the bytes.
pub proof fn law_byte_strings_are_bencoded(bytes: Seq<u8>)
    ensures
        ({
            let at = bencoded(bytes).len() - bytes.len() - 1;
            &&& at > 0
            &&& spelled(bencoded(bytes).take(at)) == bytes.len()
            &&& forall|i: int| 0 <= i < at ==> 48 <= #[trigger] bencoded(bytes)[i] <= 57
            &&& bencoded(bytes)[at] == 58
            &&& bencoded(bytes).skip(at + 1) == bytes
        }),
{
    let digits = decimal(bytes.len());
    let at = bencoded(bytes).len() - bytes.len() - 1;
    law_decimals_spell_their_number(bytes.len());
    assert(at == digits.len());
    assert(bencoded(bytes).take(at) =~= digits);
    assert(bencoded(bytes).skip(at + 1) =~= bytes);
    assert forall|i: int| 0 <= i < at implies 48 <= #[trigger] bencoded(bytes)[i] <= 57 by {
        assert(bencoded(bytes)[i] == digits[i]);
    }
}

/// What is signed of an item: `4:salt` and the salt in bencoding where there is one, `3:seqi`, the
/// sequence number, `e1:v` and the value in bencoding.
pub proof fn law_what_is_signed(seq: i64, value: Seq<u8>, salt: Seq<u8>)
    ensures
        signable(seq, value, None) == seq![51u8, 58, 115, 101, 113, 105] + signed_decimal(
            seq as int,
        ) + seq![101u8, 49, 58, 118] + bencoded(value),
        signable(seq, value, Some(salt)) == seq![52u8, 58, 115, 97, 108, 116] + bencoded(salt)
            + signable(seq, value, None),
{
    assert(signable(seq, value, None) =~= seq![51u8, 58, 115, 101, 113, 105] + signed_decimal(
        seq as int,
    ) + seq![101u8, 49, 58, 118] + bencoded(value));
    assert(signable(seq, value, Some(salt)) =~= seq![52u8, 58, 115, 97, 108, 116] + bencoded(salt)
        + signable(seq, value, None));
}

/// An immutable value belongs under the digest of its bencoding, and a mutable item under that of
/// its key followed by its salt.
pub proof fn law_what_items_belong_under(value: Seq<u8>, key: Seq<u8>, salt: Seq<u8>)
    ensures
        immutable_target(value) == id_of_bytes(sha1_digest(bencoded(value))),
        mutable_target(key, Some(salt)) == id_of_bytes(sha1_digest(key + salt)),
        mutable_target(key, None) == id_of_bytes(sha1_digest(key)),
{
    assert(key + Seq::<u8>::empty() =~= key);
}

/// An item is signed where its signature is one, under its key, of what is signed of it; neither
/// its target nor what it may replace plays a part.
pub proof fn law_when_an_item_is_signed(item: ItemView)
    ensures
        item.signed() <==> signature_holds(
            item.key,
            signable(item.seq, item.value, item.salt),
            item.signature,
        ),
{
}

// === Tokens ===

proof fn lemma_number_bytes(n: nat, m: nat, len: nat)
    requires
        n < pow(256, len),
        m < pow(256, len),
    ensures
        number_bytes(n, len).len() == len,
        number_bytes(n, len) == number_bytes(m, len) ==> n == m,
    decreases len,
{
    if len > 0 {
        let less = (len - 1) as nat;
        lemma_pow_positive(256, less);
        assert(pow(256, len) == 256 * pow(256, less)) by {
            reveal(pow);
        }
        assert(n / 256 < pow(256, less)) by (nonlinear_arith)
            requires
                n < 256 * pow(256, less),
        ;
        assert(m / 256 < pow(256, less)) by (nonlinear_arith)
            requires
                m < 256 * pow(256, less),
        ;
        lemma_number_bytes(n / 256, m / 256, less);
        if number_bytes(n, len) == number_bytes(m, len) {
            let (a, b) = (number_bytes(n / 256, less), number_bytes(m / 256, less));
            assert(number_bytes(m / 256, less).len() == less) by {
                lemma_number_bytes(m / 256, n / 256, less);
            }
            assert(number_bytes(n, len).drop_last() =~= a);
            assert(number_bytes(m, len).drop_last() =~= b);
            assert(number_bytes(n, len).last() == (n % 256) as u8);
            assert(number_bytes(m, len).last() == (m % 256) as u8);
        }
    } else {
        reveal(pow);
    }
}

/// A token is the digest of the bytes of the host's address and of the secret, and no two hosts
/// have the same bytes.
pub proof fn law_tokens_are_for_one_host(a: IpAddr, b: IpAddr, secret: Seq<u8>)
    ensures
        token_for(a, secret) == sha1_digest(ip_bytes(a) + secret),
        ip_bytes(a) == ip_bytes(b) ==> a == b,
        ip_bytes(a).len() == if a is V4 {
            4nat
        } else {
            16
        },
{
    reveal(pow);
    reveal_with_fuel(pow, 17);
    let x = match a {
        IpAddr::V4(n) => n as nat,
        IpAddr::V6(n) => n as nat,
    };
    let y = match b {
        IpAddr::V4(n) => n as nat,
        IpAddr::V6(n) => n as nat,
    };
    assert(pow(256, 4) == 0x1_0000_0000) by {
        reveal_with_fuel(pow, 5);
    }
    assert(pow(256, 16) == 0x1_0000_0000_0000_0000_0000_0000_0000_0000) by {
        reveal_with_fuel(pow, 17);
    }
    if a is V4 {
        lemma_number_bytes(x, x, 4);
    } else {
        lemma_number_bytes(x, x, 16);
    }
    if b is V4 {
        lemma_number_bytes(y, y, 4);
    } else {
        lemma_number_bytes(y, y, 16);
    }
    if a is V4 && b is V4 {
        lemma_number_bytes(x, y, 4);
    }
    if a is V6 && b is V6 {
        lemma_number_bytes(x, y, 16);
    }
}

/// A token is accepted from a host exactly where it is the one that the present secret gives to it,
/// or the one that the secret before gave.
pub proof fn law_which_tokens_are_accepted(
    tokens: TokensView,
    from: SocketAddr,
    token: Seq<u8>,
)
    ensures
        tokens.accepts(from, token) <==> {
            ||| token == token_for(from.ip, tokens.curr_secret)
            ||| token == token_for(from.ip, tokens.prev_secret)
        },
{
}

} // verus!
