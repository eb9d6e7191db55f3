//! Keys of the key-value store under which the pool's state is kept.
use crate::primitives::Bytes32;
use vstd::prelude::*;
use vstd::string::StringExecFns;

verus! {

/// The decimal digit `d`.
pub open spec fn digit_char(d: int) -> char {
    if d == 0 { '0' }
    else if d == 1 { '1' }
    else if d == 2 { '2' }
    else if d == 3 { '3' }
    else if d == 4 { '4' }
    else if d == 5 { '5' }
    else if d == 6 { '6' }
    else if d == 7 { '7' }
    else if d == 8 { '8' }
    else { '9' }
}

/// The decimal rendering of `n`, without leading zeros.
pub open spec fn decimal(n: nat) -> Seq<char>
    decreases n,
{
    if n < 10 {
        seq![digit_char(n as int)]
    } else {
        decimal(n / 10) + seq![digit_char((n % 10) as int)]
    }
}

/// The lowercase hexadecimal digit `d`.
pub open spec fn hex_char(d: int) -> char {
    if d < 10 {
        digit_char(d)
    } else if d == 10 { 'a' }
    else if d == 11 { 'b' }
    else if d == 12 { 'c' }
    else if d == 13 { 'd' }
    else if d == 14 { 'e' }
    else { 'f' }
}

/// Two lowercase hexadecimal digits per byte, high nibble first.
pub open spec fn hex_spec(b: Seq<u8>) -> Seq<char> {
    Seq::new(2 * b.len(), |i: int| if i % 2 == 0 { hex_char(b[i / 2] as int / 16) } else { hex_char(b[i / 2] as int % 16) })
}

/// Relies on `hex::encode`: two lowercase hexadecimal digits for each byte, in order.
#[verifier::external_body]
fn to_hex(b: &Bytes32) -> (r: String)
    ensures
        r@ == hex_spec(b@),
{
    hex::encode(b)
}

fn digit_str(d: u64) -> (r: &'static str)
    requires
        d < 10,
    ensures
        r@ == seq![digit_char(d as int)],
{
    proof {
        reveal_strlit("0");
        reveal_strlit("1");
        reveal_strlit("2");
        reveal_strlit("3");
        reveal_strlit("4");
        reveal_strlit("5");
        reveal_strlit("6");
        reveal_strlit("7");
        reveal_strlit("8");
        reveal_strlit("9");
    }
    if d == 0 { "0" }
    else if d == 1 { "1" }
    else if d == 2 { "2" }
    else if d == 3 { "3" }
    else if d == 4 { "4" }
    else if d == 5 { "5" }
    else if d == 6 { "6" }
    else if d == 7 { "7" }
    else if d == 8 { "8" }
    else { "9" }
}

/// `n` in decimal.
pub fn to_decimal(n: u64) -> (r: String)
    ensures
        r@ == decimal(n as nat),
    decreases n,
{
    if n < 10 {
        return String::from_str(digit_str(n));
    }
    let mut s = to_decimal(n / 10);
    s.append(digit_str(n % 10));
    s
}

fn key(prefix: &str, suffix: &String) -> (r: String)
    ensures
        r@ == prefix@ + suffix@,
{
    let mut s = String::from_str(prefix);
    s.append(suffix.as_str());
    s
}

pub fn token_supply(asset_id: &Bytes32) -> (r: String)
    ensures
        r@ == "shielded_pool/assets/"@ + hex_spec(asset_id@) + "/token_supply"@,
{
    let mut s = key("shielded_pool/assets/", &to_hex(asset_id));
    s.append("/token_supply");
    s
}

pub fn known_assets() -> (r: String)
    ensures
        r@ == "shielded_pool/known_assets"@,
{
    String::from_str("shielded_pool/known_assets")
}

pub fn denom_by_asset(asset_id: &Bytes32) -> (r: String)
    ensures
        r@ == "shielded_pool/assets/"@ + hex_spec(asset_id@) + "/denom"@,
{
    let mut s = key("shielded_pool/assets/", &to_hex(asset_id));
    s.append("/denom");
    s
}

pub fn note_source(note_commitment: &Bytes32) -> (r: String)
    ensures
        r@ == "shielded_pool/note_source/"@ + hex_spec(note_commitment@),
{
    key("shielded_pool/note_source/", &to_hex(note_commitment))
}

pub fn compact_block(height: u64) -> (r: String)
    ensures
        r@ == "shielded_pool/compact_block/"@ + decimal(height as nat),
{
    key("shielded_pool/compact_block/", &to_decimal(height))
}

pub fn anchor_by_height(height: u64) -> (r: String)
    ensures
        r@ == "shielded_pool/anchor/"@ + decimal(height as nat),
{
    key("shielded_pool/anchor/", &to_decimal(height))
}

pub fn anchor_lookup(anchor: &Bytes32) -> (r: String)
    ensures
        r@ == "shielded_pool/valid_anchors/"@ + hex_spec(anchor@),
{
    key("shielded_pool/valid_anchors/", &to_hex(anchor))
}

pub fn epoch_anchor_by_index(index: u64) -> (r: String)
    ensures
        r@ == "shielded_pool/epoch_anchor/"@ + decimal(index as nat),
{
    key("shielded_pool/epoch_anchor/", &to_decimal(index))
}

pub fn epoch_anchor_lookup(anchor: &Bytes32) -> (r: String)
    ensures
        r@ == "shielded_pool/valid_epoch_anchors/"@ + hex_spec(anchor@),
{
    key("shielded_pool/valid_epoch_anchors/", &to_hex(anchor))
}

pub fn block_anchor_by_height(height: u64) -> (r: String)
    ensures
        r@ == "shielded_pool/block_anchor/"@ + decimal(height as nat),
{
    key("shielded_pool/block_anchor/", &to_decimal(height))
}

pub fn block_anchor_lookup(anchor: &Bytes32) -> (r: String)
    ensures
        r@ == "shielded_pool/valid_block_anchors/"@ + hex_spec(anchor@),
{
    key("shielded_pool/valid_block_anchors/", &to_hex(anchor))
}

pub fn spent_nullifier_lookup(nullifier: &Bytes32) -> (r: String)
    ensures
        r@ == "shielded_pool/spent_nullifiers/"@ + hex_spec(nullifier@),
{
    key("shielded_pool/spent_nullifiers/", &to_hex(nullifier))
}

pub fn commission_amounts(height: u64) -> (r: String)
    ensures
        r@ == "staking/commission_amounts/"@ + decimal(height as nat),
{
    key("staking/commission_amounts/", &to_decimal(height))
}

pub fn claimed_swap_outputs(height: u64) -> (r: String)
    ensures
        r@ == "dex/claimed_swap_outputs/"@ + decimal(height as nat),
{
    key("dex/claimed_swap_outputs/", &to_decimal(height))
}

pub fn scheduled_to_apply(epoch: u64) -> (r: String)
    ensures
        r@ == "shielded_pool/quarantined_to_apply_in_epoch/"@ + decimal(epoch as nat),
{
    key("shielded_pool/quarantined_to_apply_in_epoch/", &to_decimal(epoch))
}

pub fn quarantined_spent_nullifier_lookup(nullifier: &Bytes32) -> (r: String)
    ensures
        r@ == "shielded_pool/quarantined_spent_nullifiers/"@ + hex_spec(nullifier@),
{
    key("shielded_pool/quarantined_spent_nullifiers/", &to_hex(nullifier))
}

} // verus!

verus! {

proof fn lemma_hex_char_injective(a: int, b: int)
    requires
        0 <= a < 16,
        0 <= b < 16,
        hex_char(a) == hex_char(b),
    ensures
        a == b,
{
}

/// Distinct byte strings have distinct hexadecimal renderings.
pub proof fn lemma_hex_injective(a: Seq<u8>, b: Seq<u8>)
    requires
        hex_spec(a) == hex_spec(b),
    ensures
        a == b,
{
    assert(a.len() == b.len()) by {
        assert(hex_spec(a).len() == 2 * a.len());
        assert(hex_spec(b).len() == 2 * b.len());
    }
    assert forall|i: int| 0 <= i < a.len() implies a[i] == b[i] by {
        let x = a[i] as int;
        let y = b[i] as int;
        assert((2 * i) % 2 == 0 && (2 * i) / 2 == i);
        assert((2 * i + 1) % 2 == 1 && (2 * i + 1) / 2 == i);
        assert(hex_spec(a)[2 * i] == hex_char(x / 16));
        assert(hex_spec(b)[2 * i] == hex_char(y / 16));
        assert(hex_spec(a)[2 * i + 1] == hex_char(x % 16));
        assert(hex_spec(b)[2 * i + 1] == hex_char(y % 16));
        assert(0 <= x / 16 < 16 && 0 <= y / 16 < 16);
        lemma_hex_char_injective(x / 16, y / 16);
        lemma_hex_char_injective(x % 16, y % 16);
        assert(x == 16 * (x / 16) + x % 16);
        assert(y == 16 * (y / 16) + y % 16);
    }
    assert(a =~= b);
}

/// The spent-nullifier key names its nullifier: two nullifiers share a key
/// exactly when they are equal, so a key present in the store stands for one
/// spent nullifier.
pub proof fn lemma_spent_nullifier_key_injective(a: Bytes32, b: Bytes32)
    ensures
        ("shielded_pool/spent_nullifiers/"@ + hex_spec(a@) == "shielded_pool/spent_nullifiers/"@ + hex_spec(b@))
            <==> a@ == b@,
{
    let p = "shielded_pool/spent_nullifiers/"@;
    if p + hex_spec(a@) == p + hex_spec(b@) {
        assert((p + hex_spec(a@)).subrange(p.len() as int, (p + hex_spec(a@)).len() as int) =~= hex_spec(a@));
        assert((p + hex_spec(b@)).subrange(p.len() as int, (p + hex_spec(b@)).len() as int) =~= hex_spec(b@));
        lemma_hex_injective(a@, b@);
    }
}

} // verus!
