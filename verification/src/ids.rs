//! 128-bit identifiers: their canonical text, and ids derived from names.

use uuid::Uuid;
use vstd::prelude::*;

verus! {

/// The lower-case hexadecimal digit `d`, for `d < 16`.
pub open spec fn hex_char(d: nat) -> char {
    if d < 10 {
        crate::text::digit_char(d)
    } else if d == 10 {
        'a'
    } else if d == 11 {
        'b'
    } else if d == 12 {
        'c'
    } else if d == 13 {
        'd'
    } else if d == 14 {
        'e'
    } else {
        'f'
    }
}

/// The last `n` hexadecimal digits of `x`, most significant first.
pub open spec fn hex_digits(x: nat, n: nat) -> Seq<char>
    decreases n,
{
    if n == 0 {
        Seq::empty()
    } else {
        hex_digits(x / 16, (n - 1) as nat).push(hex_char(x % 16))
    }
}

/// The canonical text of an id: 32 hexadecimal digits in groups of 8, 4, 4, 4
/// and 12, joined by hyphens.
pub open spec fn id_chars(id: u128) -> Seq<char> {
    let hex = hex_digits(id as nat, 32);
    hex.subrange(0, 8).push('-') + hex.subrange(8, 12).push('-') + hex.subrange(12, 16).push('-')
        + hex.subrange(16, 20).push('-') + hex.subrange(20, 32)
}

/// The bytes of an id, most significant first.
pub open spec fn id_bytes(id: u128) -> Seq<u8> {
    be_bytes(id as nat, 16)
}

/// The last `n` bytes of `x`, most significant first.
pub open spec fn be_bytes(x: nat, n: nat) -> Seq<u8>
    decreases n,
{
    if n == 0 {
        Seq::empty()
    } else {
        be_bytes(x / 256, (n - 1) as nat).push((x % 256) as u8)
    }
}

/// The id that a text denotes, if it denotes one: `Uuid::parse_str` also takes
/// upper case, no hyphens, braces and the `urn:uuid:` prefix.
pub uninterp spec fn parsed_id(text: Seq<char>) -> Option<u128>;

/// The id named by `name` in `namespace`: what `Uuid::new_v5` computes with
/// SHA-1.
pub uninterp spec fn named_id(namespace: u128, name: Seq<u8>) -> u128;

/// `Uuid`'s `Display`: the canonical text of the id, which `Uuid::parse_str`
/// reads back.
#[verifier::external_body]
pub(crate) fn id_text(id: u128) -> (text: String)
    ensures
        text@ == id_chars(id),
        parsed_id(text@) == Some(id),
{
    Uuid::from_u128(id).to_string()
}

/// `Uuid::parse_str`, its error dropped. Canonical text parses to the id it
/// was written from; which other texts parse is left to the name.
#[verifier::external_body]
pub(crate) fn id_parse(text: &str) -> (id: Option<u128>)
    ensures
        id == parsed_id(text@),
        forall|x: u128| text@ == #[trigger] id_chars(x) ==> id == Some(x),
{
    Uuid::parse_str(text).ok().map(|id| id.as_u128())
}

/// `Uuid::new_v4`: a random id. It carries its version and variant, so it is
/// never the nil id.
#[verifier::external_body]
pub(crate) fn id_fresh() -> (id: u128)
    ensures
        id != 0,
{
    Uuid::new_v4().as_u128()
}

/// `Uuid::as_bytes`: the sixteen bytes of the id, most significant first.
#[verifier::external_body]
pub(crate) fn id_to_bytes(id: u128) -> (bytes: Vec<u8>)
    ensures
        bytes@ == id_bytes(id),
{
    Uuid::from_u128(id).as_bytes().to_vec()
}

/// `Uuid::new_v5`: a function of the namespace and the name alone.
#[verifier::external_body]
pub(crate) fn id_named(namespace: u128, name: &[u8]) -> (id: u128)
    ensures
        id == named_id(namespace, name@),
{
    Uuid::new_v5(&Uuid::from_u128(namespace), name).as_u128()
}

proof fn lemma_hex_char_injective(a: nat, b: nat)
    requires
        a < 16,
        b < 16,
        hex_char(a) == hex_char(b),
    ensures
        a == b,
{
}

proof fn lemma_hex_digits_len(x: nat, n: nat)
    ensures
        hex_digits(x, n).len() == n,
        forall|i: int|
            0 <= i < n ==> (#[trigger] hex_digits(x, n)[i]) != ':' && hex_digits(x, n)[i] != '\0',
    decreases n,
{
    if n > 0 {
        lemma_hex_digits_len(x / 16, (n - 1) as nat);
    }
}

spec fn pow16(n: nat) -> nat
    decreases n,
{
    if n == 0 {
        1
    } else {
        16 * pow16((n - 1) as nat)
    }
}

proof fn lemma_hex_digits_injective(x: nat, y: nat, n: nat)
    requires
        x < pow16(n),
        y < pow16(n),
        hex_digits(x, n) == hex_digits(y, n),
    ensures
        x == y,
    decreases n,
{
    if n > 0 {
        let m = (n - 1) as nat;
        let hx = hex_digits(x / 16, m);
        let hy = hex_digits(y / 16, m);
        lemma_hex_digits_len(x / 16, m);
        lemma_hex_digits_len(y / 16, m);
        assert(hx.push(hex_char(x % 16)).last() == hy.push(hex_char(y % 16)).last());
        lemma_hex_char_injective(x % 16, y % 16);
        assert(hx =~= hx.push(hex_char(x % 16)).drop_last());
        assert(hy =~= hy.push(hex_char(y % 16)).drop_last());
        lemma_hex_digits_injective(x / 16, y / 16, m);
    }
}

/// Canonical text has 36 characters, none of them a colon or NUL.
pub proof fn lemma_id_chars_shape(id: u128)
    ensures
        id_chars(id).len() == 36,
        forall|i: int|
            0 <= i < 36 ==> (#[trigger] id_chars(id)[i]) != ':' && id_chars(id)[i] != '\0',
        !id_chars(id).contains('\0'),
{
    lemma_hex_digits_len(id as nat, 32);
}

/// Different ids have different texts.
pub proof fn lemma_id_chars_injective(a: u128, b: u128)
    requires
        id_chars(a) == id_chars(b),
    ensures
        a == b,
{
    let ha = hex_digits(a as nat, 32);
    let hb = hex_digits(b as nat, 32);
    lemma_hex_digits_len(a as nat, 32);
    lemma_hex_digits_len(b as nat, 32);
    let ta = id_chars(a);
    let tb = id_chars(b);
    assert forall|i: int| 0 <= i < 32 implies ha[i] == hb[i] by {
        let at: int = if i < 8 {
            i
        } else if i < 12 {
            i + 1
        } else if i < 16 {
            i + 2
        } else if i < 20 {
            i + 3
        } else {
            i + 4
        };
        assert(ta[at] == ha[i]);
        assert(tb[at] == hb[i]);
    }
    assert(ha =~= hb);
    assert(pow16(32) == 0x1_0000_0000_0000_0000_0000_0000_0000_0000nat) by {
        reveal_with_fuel(pow16, 33);
    }
    lemma_hex_digits_injective(a as nat, b as nat, 32);
}

/// 256 to the power of `n`.
spec fn pow256(n: nat) -> nat
    decreases n,
{
    if n == 0 {
        1
    } else {
        256 * pow256((n - 1) as nat)
    }
}

proof fn lemma_be_bytes(x: nat, y: nat, n: nat)
    ensures
        be_bytes(x, n).len() == n,
        be_bytes(x, n) == be_bytes(y, n) && x < pow256(n) && y < pow256(n) ==> x == y,
    decreases n,
{
    if n > 0 {
        let m = (n - 1) as nat;
        lemma_be_bytes(x / 256, y / 256, m);
        lemma_be_bytes(y / 256, x / 256, m);
        if be_bytes(x, n) == be_bytes(y, n) && x < pow256(n) && y < pow256(n) {
            assert(be_bytes(x, n).last() == be_bytes(y, n).last());
            assert(be_bytes(x, n).drop_last() =~= be_bytes(x / 256, m));
            assert(be_bytes(y, n).drop_last() =~= be_bytes(y / 256, m));
        }
    }
}

/// An id has sixteen bytes, and different ids have different ones.
pub proof fn lemma_id_bytes(a: u128, b: u128)
    ensures
        id_bytes(a).len() == 16,
        id_bytes(b).len() == 16,
        id_bytes(a) == id_bytes(b) ==> a == b,
{
    assert(pow256(16) == 0x1_0000_0000_0000_0000_0000_0000_0000_0000nat) by {
        reveal_with_fuel(pow256, 17);
    }
    lemma_be_bytes(a as nat, b as nat, 16);
    lemma_be_bytes(b as nat, a as nat, 16);
}

} // verus!
