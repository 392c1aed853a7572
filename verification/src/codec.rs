//! The vault payload codec and the container framing.
//!
//! A vault is serialized as a canonical, self-describing binary record (a
//! deterministic CBOR subset): a three-pair map `created_at`, `last_modified`
//! and `entries`, the timestamps as integers and the entries as an array of
//! five-pair maps. Integers use the shortest header form, so every vault has
//! exactly one encoding. The container is the 24-byte nonce followed
//! immediately by the ciphertext, with no length prefix.

use vstd::prelude::*;
use vstd::utf8::encode_utf8;
use crate::model::{Entry, EntryModel, VaultV1, VaultModel};
use crate::VaultError;

verus! {

/// 256 raised to `e`.
pub open spec fn pow256(e: nat) -> nat
    decreases e,
{
    if e == 0 {
        1
    } else {
        256 * pow256((e - 1) as nat)
    }
}

/// The `k` big-endian base-256 digits of `n`.
pub open spec fn be_bytes(n: nat, k: nat) -> Seq<u8> {
    Seq::new(k, |j: int| ((n / pow256((k - 1 - j) as nat)) % 256) as u8)
}

/// The canonical header of one data item: the major type in the three high
/// bits, the argument in the shortest of the five argument forms.
pub open spec fn enc_head(major: u8, arg: u64) -> Seq<u8> {
    if arg < 24 {
        seq![((major as int) * 32 + arg as int) as u8]
    } else if arg < 0x100 {
        seq![((major as int) * 32 + 24) as u8] + be_bytes(arg as nat, 1)
    } else if arg < 0x10000 {
        seq![((major as int) * 32 + 25) as u8] + be_bytes(arg as nat, 2)
    } else if arg < 0x1_0000_0000 {
        seq![((major as int) * 32 + 26) as u8] + be_bytes(arg as nat, 4)
    } else {
        seq![((major as int) * 32 + 27) as u8] + be_bytes(arg as nat, 8)
    }
}

/// The shortest-form integer item of major type 0.
pub open spec fn enc_uint(n: u64) -> Seq<u8> {
    enc_head(0, n)
}

/// A signed integer item: major type 0 for `n >= 0`, else major type 1
/// carrying `-1 - n`.
pub open spec fn enc_int(n: i64) -> Seq<u8> {
    if n >= 0 {
        enc_head(0, n as u64)
    } else {
        enc_head(1, (-1 - n as int) as u64)
    }
}

/// A text item: its UTF-8 length as a header of major type 3, then the
/// UTF-8 bytes.
pub open spec fn enc_text(s: Seq<char>) -> Seq<u8> {
    enc_head(3, encode_utf8(s).len() as u64) + encode_utf8(s)
}

/// The text item `"created_at"`.
pub open spec fn key_created_at() -> Seq<u8> {
    seq![0x6Au8, 0x63u8, 0x72u8, 0x65u8, 0x61u8, 0x74u8, 0x65u8, 0x64u8, 0x5Fu8, 0x61u8, 0x74u8]
}

/// The text item `"last_modified"`.
pub open spec fn key_last_modified() -> Seq<u8> {
    seq![0x6Du8, 0x6Cu8, 0x61u8, 0x73u8, 0x74u8, 0x5Fu8, 0x6Du8, 0x6Fu8, 0x64u8, 0x69u8, 0x66u8, 0x69u8, 0x65u8, 0x64u8]
}

/// The text item `"entries"`.
pub open spec fn key_entries() -> Seq<u8> {
    seq![0x67u8, 0x65u8, 0x6Eu8, 0x74u8, 0x72u8, 0x69u8, 0x65u8, 0x73u8]
}

/// The text item `"id"`.
pub open spec fn key_id() -> Seq<u8> {
    seq![0x62u8, 0x69u8, 0x64u8]
}

/// The text item `"name"`.
pub open spec fn key_name() -> Seq<u8> {
    seq![0x64u8, 0x6Eu8, 0x61u8, 0x6Du8, 0x65u8]
}

/// The text item `"username"`.
pub open spec fn key_username() -> Seq<u8> {
    seq![0x68u8, 0x75u8, 0x73u8, 0x65u8, 0x72u8, 0x6Eu8, 0x61u8, 0x6Du8, 0x65u8]
}

/// The text item `"password"`.
pub open spec fn key_password() -> Seq<u8> {
    seq![0x68u8, 0x70u8, 0x61u8, 0x73u8, 0x73u8, 0x77u8, 0x6Fu8, 0x72u8, 0x64u8]
}

/// The text item `"notes"`.
pub open spec fn key_notes() -> Seq<u8> {
    seq![0x65u8, 0x6Eu8, 0x6Fu8, 0x74u8, 0x65u8, 0x73u8]
}

/// The notes field: the null item when absent, a text item when present.
pub open spec fn enc_notes(n: Option<Seq<char>>) -> Seq<u8> {
    match n {
        Option::None => seq![0xF6u8],
        Option::Some(s) => enc_text(s),
    }
}

/// One entry: a five-pair map in declaration order.
pub open spec fn enc_entry(e: EntryModel) -> Seq<u8> {
    (seq![0xA5u8] + key_id()) + (enc_uint(e.id as u64) + (key_name() + (enc_text(e.name) + (
    key_username() + (enc_text(e.username) + (key_password() + (enc_text(e.password) + (
    key_notes() + enc_notes(e.notes)))))))))
}

/// The entries in order, concatenated.
pub open spec fn enc_entries(s: Seq<EntryModel>) -> Seq<u8>
    decreases s.len(),
{
    if s.len() == 0 {
        Seq::empty()
    } else {
        enc_entry(s[0]) + enc_entries(s.drop_first())
    }
}

/// The whole vault payload: a three-pair map holding both timestamps and the
/// entry array.
pub open spec fn spec_encode_vault(v: VaultModel) -> Seq<u8> {
    (seq![0xA3u8] + key_created_at()) + (enc_int(v.created_at) + (key_last_modified() + (enc_int(
        v.last_modified,
    ) + (key_entries() + (enc_head(4, v.entries.len() as u64) + enc_entries(v.entries))))))
}

/// The string's UTF-8 form is short enough for a one-item length header.
pub open spec fn str_encodable(s: Seq<char>) -> bool {
    encode_utf8(s).len() < 0x1_0000_0000_0000_0000
}

/// Every text field of the entry is encodable.
pub open spec fn entry_encodable(e: EntryModel) -> bool {
    &&& str_encodable(e.name)
    &&& str_encodable(e.username)
    &&& str_encodable(e.password)
    &&& match e.notes {
        Option::Some(s) => str_encodable(s),
        Option::None => true,
    }
}

/// The vault's entry count and every field are encodable.
pub open spec fn vault_encodable(v: VaultModel) -> bool {
    &&& v.entries.len() < 0x1_0000_0000_0000_0000
    &&& forall|i: int| 0 <= i < v.entries.len() ==> entry_encodable(#[trigger] v.entries[i])
}

proof fn lemma_pow256_bound(e: nat)
    requires
        e <= 7,
    ensures
        pow256(e) <= 0x100_0000_0000_0000,
        e <= 6 ==> pow256(e) <= 0x1_0000_0000_0000,
{
    reveal_with_fuel(pow256, 8);
    if e == 0 {
    } else if e == 1 {
    } else if e == 2 {
    } else if e == 3 {
    } else if e == 4 {
    } else if e == 5 {
    } else if e == 6 {
        assert(pow256(6) == 0x1_0000_0000_0000);
    } else {
        assert(e == 7);
        assert(pow256(7) == 0x100_0000_0000_0000);
    }
}

fn pow256_exec(e: usize) -> (r: u64)
    requires
        e <= 7,
    ensures
        r as nat == pow256(e as nat),
{
    let mut p: u64 = 1;
    let mut i: usize = 0;
    while i < e
        invariant
            i <= e <= 7,
            p as nat == pow256(i as nat),
        decreases e - i,
    {
        proof {
            lemma_pow256_bound(i as nat);
        }
        p = p * 256;
        i = i + 1;
    }
    p
}

/// Appends the bytes of a slice.
fn push_bytes(out: &mut Vec<u8>, bytes: &[u8])
    ensures
        final(out)@ == old(out)@ + bytes@,
{
    let mut i: usize = 0;
    while i < bytes.len()
        invariant
            i <= bytes@.len(),
            out@ == old(out)@ + bytes@.subrange(0, i as int),
        decreases bytes@.len() - i,
    {
        out.push(bytes[i]);
        proof {
            assert(out@ =~= old(out)@ + bytes@.subrange(0, i + 1));
        }
        i = i + 1;
    }
    proof {
        assert(out@ =~= old(out)@ + bytes@);
    }
}

/// Appends the `k` big-endian base-256 digits of `n`.
fn push_be(out: &mut Vec<u8>, n: u64, k: usize)
    requires
        1 <= k <= 8,
        (n as nat) < pow256(k as nat),
    ensures
        final(out)@ == old(out)@ + be_bytes(n as nat, k as nat),
{
    let mut pow: u64 = pow256_exec(k - 1);
    let mut j: usize = 0;
    while j < k
        invariant
            j <= k,
            1 <= k <= 8,
            out@ == old(out)@ + be_bytes(n as nat, k as nat).subrange(0, j as int),
            j < k ==> pow as nat == pow256((k - 1 - j) as nat),
        decreases k - j,
    {
        assert(pow > 0) by {
            assert(pow as nat == pow256((k - 1 - j) as nat));
            lemma_pow256_pos((k - 1 - j) as nat);
        }
        out.push(((n / pow) % 256) as u8);
        proof {
            assert(be_bytes(n as nat, k as nat)[j as int] == (((n as nat) / pow256(
                (k - 1 - j) as nat,
            )) % 256) as u8);
            assert((n / pow) as nat == (n as nat) / (pow as nat)) by (nonlinear_arith)
                requires
                    pow > 0,
            ;
            assert(out@ =~= old(out)@ + be_bytes(n as nat, k as nat).subrange(0, j + 1));
        }
        if j + 1 < k {
            proof {
                assert(pow256((k - 1 - j) as nat) == 256 * pow256((k - 2 - j) as nat));
                assert((256 * pow256((k - 2 - j) as nat)) / 256 == pow256((k - 2 - j) as nat))
                    by (nonlinear_arith);
            }
            pow = pow / 256;
        }
        j = j + 1;
    }
    proof {
        assert(out@ =~= old(out)@ + be_bytes(n as nat, k as nat));
    }
}

proof fn lemma_pow256_pos(e: nat)
    ensures
        pow256(e) >= 1,
    decreases e,
{
    if e > 0 {
        lemma_pow256_pos((e - 1) as nat);
    }
}

/// Appends the canonical header of one data item.
fn push_head(out: &mut Vec<u8>, major: u8, arg: u64)
    requires
        major < 8,
    ensures
        final(out)@ == old(out)@ + enc_head(major, arg),
{
    if arg < 24 {
        out.push(major * 32 + (arg as u8));
        proof {
            assert(out@ =~= old(out)@ + enc_head(major, arg));
        }
    } else {
        let (info, width): (u8, usize) = if arg < 0x100 {
            (24, 1)
        } else if arg < 0x10000 {
            (25, 2)
        } else if arg < 0x1_0000_0000 {
            (26, 4)
        } else {
            (27, 8)
        };
        proof {
            reveal_with_fuel(pow256, 9);
            assert(pow256(1) == 0x100 && pow256(2) == 0x10000 && pow256(4) == 0x1_0000_0000
                && pow256(8) == 0x1_0000_0000_0000_0000);
        }
        out.push(major * 32 + info);
        push_be(out, arg, width);
        proof {
            assert(out@ =~= old(out)@ + enc_head(major, arg));
        }
    }
}

/// Appends a signed integer item.
fn push_int(out: &mut Vec<u8>, n: i64)
    ensures
        final(out)@ == old(out)@ + enc_int(n),
{
    if n >= 0 {
        push_head(out, 0, n as u64);
    } else {
        let m: u64 = (-(n + 1)) as u64;
        proof {
            assert(m as int == -1 - n as int);
        }
        push_head(out, 1, m);
    }
}

/// Appends a text item.
fn push_text(out: &mut Vec<u8>, s: &str)
    ensures
        final(out)@ == old(out)@ + enc_text(s@),
        str_encodable(s@),
{
    let b = s.as_bytes();
    let n = b.len();
    push_head(out, 3, n as u64);
    push_bytes(out, b);
    proof {
        assert(out@ =~= old(out)@ + enc_text(s@));
    }
}

fn vec_key_created_at() -> (r: Vec<u8>)
    ensures
        r@ == key_created_at(),
{
    let mut v: Vec<u8> = Vec::new();
    v.push(0x6A);
    v.push(0x63);
    v.push(0x72);
    v.push(0x65);
    v.push(0x61);
    v.push(0x74);
    v.push(0x65);
    v.push(0x64);
    v.push(0x5F);
    v.push(0x61);
    v.push(0x74);
    proof {
        assert(v@ =~= key_created_at());
    }
    v
}

fn vec_key_last_modified() -> (r: Vec<u8>)
    ensures
        r@ == key_last_modified(),
{
    let mut v: Vec<u8> = Vec::new();
    v.push(0x6D);
    v.push(0x6C);
    v.push(0x61);
    v.push(0x73);
    v.push(0x74);
    v.push(0x5F);
    v.push(0x6D);
    v.push(0x6F);
    v.push(0x64);
    v.push(0x69);
    v.push(0x66);
    v.push(0x69);
    v.push(0x65);
    v.push(0x64);
    proof {
        assert(v@ =~= key_last_modified());
    }
    v
}

fn vec_key_entries() -> (r: Vec<u8>)
    ensures
        r@ == key_entries(),
{
    let mut v: Vec<u8> = Vec::new();
    v.push(0x67);
    v.push(0x65);
    v.push(0x6E);
    v.push(0x74);
    v.push(0x72);
    v.push(0x69);
    v.push(0x65);
    v.push(0x73);
    proof {
        assert(v@ =~= key_entries());
    }
    v
}

fn vec_key_id() -> (r: Vec<u8>)
    ensures
        r@ == key_id(),
{
    let mut v: Vec<u8> = Vec::new();
    v.push(0x62);
    v.push(0x69);
    v.push(0x64);
    proof {
        assert(v@ =~= key_id());
    }
    v
}

fn vec_key_name() -> (r: Vec<u8>)
    ensures
        r@ == key_name(),
{
    let mut v: Vec<u8> = Vec::new();
    v.push(0x64);
    v.push(0x6E);
    v.push(0x61);
    v.push(0x6D);
    v.push(0x65);
    proof {
        assert(v@ =~= key_name());
    }
    v
}

fn vec_key_username() -> (r: Vec<u8>)
    ensures
        r@ == key_username(),
{
    let mut v: Vec<u8> = Vec::new();
    v.push(0x68);
    v.push(0x75);
    v.push(0x73);
    v.push(0x65);
    v.push(0x72);
    v.push(0x6E);
    v.push(0x61);
    v.push(0x6D);
    v.push(0x65);
    proof {
        assert(v@ =~= key_username());
    }
    v
}

fn vec_key_password() -> (r: Vec<u8>)
    ensures
        r@ == key_password(),
{
    let mut v: Vec<u8> = Vec::new();
    v.push(0x68);
    v.push(0x70);
    v.push(0x61);
    v.push(0x73);
    v.push(0x73);
    v.push(0x77);
    v.push(0x6F);
    v.push(0x72);
    v.push(0x64);
    proof {
        assert(v@ =~= key_password());
    }
    v
}

fn vec_key_notes() -> (r: Vec<u8>)
    ensures
        r@ == key_notes(),
{
    let mut v: Vec<u8> = Vec::new();
    v.push(0x65);
    v.push(0x6E);
    v.push(0x6F);
    v.push(0x74);
    v.push(0x65);
    v.push(0x73);
    proof {
        assert(v@ =~= key_notes());
    }
    v
}

/// Appends one encoded entry.
#[verifier::rlimit(50)]
fn push_entry(out: &mut Vec<u8>, e: &Entry)
    ensures
        final(out)@ == old(out)@ + enc_entry(e@),
        entry_encodable(e@),
{
    out.push(0xA5);
    let k = vec_key_id();
    push_bytes(out, k.as_slice());
    push_head(out, 0, e.id as u64);
    let k = vec_key_name();
    push_bytes(out, k.as_slice());
    push_text(out, e.name.as_str());
    let k = vec_key_username();
    push_bytes(out, k.as_slice());
    push_text(out, e.username.as_str());
    let k = vec_key_password();
    push_bytes(out, k.as_slice());
    push_text(out, e.password.as_str());
    let k = vec_key_notes();
    push_bytes(out, k.as_slice());
    match &e.notes {
        Option::Some(s) => push_text(out, s.as_str()),
        Option::None => out.push(0xF6),
    }
    proof {
        assert(out@ =~= old(out)@ + enc_entry(e@));
    }
}

proof fn lemma_enc_entries_snoc(s: Seq<EntryModel>, i: int)
    requires
        0 <= i < s.len(),
    ensures
        enc_entries(s.take(i + 1)) == enc_entries(s.take(i)) + enc_entry(s[i]),
    decreases i,
{
    if i == 0 {
        assert(s.take(1) =~= seq![s[0]]);
        assert(s.take(1).drop_first() =~= Seq::<EntryModel>::empty());
        assert(s.take(0) =~= Seq::<EntryModel>::empty());
        assert(enc_entries(s.take(1)) =~= enc_entries(s.take(0)) + enc_entry(s[0]));
    } else {
        let t = s.drop_first();
        lemma_enc_entries_snoc(t, i - 1);
        assert(s.take(i + 1).drop_first() =~= t.take(i));
        assert(s.take(i).drop_first() =~= t.take(i - 1));
        assert(s.take(i + 1)[0] == s[0]);
        assert(s.take(i)[0] == s[0]);
        assert(enc_entries(s.take(i + 1)) == enc_entry(s[0]) + enc_entries(t.take(i)));
        assert(enc_entries(s.take(i)) == enc_entry(s[0]) + enc_entries(t.take(i - 1)));
        assert(t[i - 1] == s[i]);
        assert(enc_entries(s.take(i + 1)) =~= enc_entries(s.take(i)) + enc_entry(s[i]));
    }
}

/// Serializes a vault record to its canonical payload.
#[verifier::rlimit(50)]
pub fn encode_vault(vault: &VaultV1) -> (r: Vec<u8>)
    ensures
        r@ == spec_encode_vault(vault@),
        vault_encodable(vault@),
{
    let mut out: Vec<u8> = Vec::new();
    out.push(0xA3);
    let k = vec_key_created_at();
    push_bytes(&mut out, k.as_slice());
    push_int(&mut out, vault.created_at);
    let k = vec_key_last_modified();
    push_bytes(&mut out, k.as_slice());
    push_int(&mut out, vault.last_modified);
    let k = vec_key_entries();
    push_bytes(&mut out, k.as_slice());
    push_head(&mut out, 4, vault.entries.len() as u64);
    let ghost header = out@;
    let mut i: usize = 0;
    while i < vault.entries.len()
        invariant
            i <= vault@.entries.len(),
            vault@.entries.len() == vault.entries@.len(),
            out@ == header + enc_entries(vault@.entries.take(i as int)),
            forall|j: int| 0 <= j < i ==> entry_encodable(#[trigger] vault@.entries[j]),
        decreases vault.entries@.len() - i,
    {
        push_entry(&mut out, &vault.entries[i]);
        proof {
            assert(vault@.entries[i as int] == vault.entries@[i as int]@);
            lemma_enc_entries_snoc(vault@.entries, i as int);
            assert(out@ =~= header + enc_entries(vault@.entries.take(i + 1)));
        }
        i = i + 1;
    }
    proof {
        assert(vault@.entries.take(vault@.entries.len() as int) =~= vault@.entries);
        assert(out@ =~= spec_encode_vault(vault@));
    }
    out
}

/// Copies a byte slice into a fresh vector.
pub fn bytes_of(s: &[u8]) -> (r: Vec<u8>)
    ensures
        r@ == s@,
{
    let mut v: Vec<u8> = Vec::new();
    push_bytes(&mut v, s);
    v
}

/// Frames a nonce and ciphertext into the on-disk container layout: the
/// nonce's 24 bytes first, the ciphertext immediately after, no length
/// prefix.
pub fn frame(nonce: &[u8; 24], ciphertext: &[u8]) -> (r: Vec<u8>)
    ensures
        r@ == nonce@ + ciphertext@,
{
    let mut out: Vec<u8> = Vec::new();
    push_bytes(&mut out, nonce.as_slice());
    push_bytes(&mut out, ciphertext);
    out
}

/// Splits a container back into nonce and ciphertext, or nothing when the
/// container is shorter than the fixed nonce length.
pub fn unframe(container: &[u8]) -> (r: Option<(Vec<u8>, Vec<u8>)>)
    ensures
        match r {
            Some(parts) => container@.len() >= 24 && parts.0@ == container@.subrange(0, 24)
                && parts.1@ == container@.skip(24),
            None => container@.len() < 24,
        },
{
    if container.len() < 24 {
        None
    } else {
        let (a, b) = container.split_at(24);
        proof {
            assert(b@ =~= container@.skip(24));
        }
        Some((bytes_of(a), bytes_of(b)))
    }
}

proof fn lemma_subrange_chain(s: Seq<u8>, p0: int, p1: int, p2: int)
    requires
        0 <= p0 <= p1 <= p2 <= s.len(),
    ensures
        s.subrange(p0, p2) == s.subrange(p0, p1) + s.subrange(p1, p2),
{
    assert(s.subrange(p0, p2) =~= s.subrange(p0, p1) + s.subrange(p1, p2));
}

proof fn lemma_prefix_split(a: Seq<u8>, b: Seq<u8>, s: Seq<u8>)
    requires
        (a + b).is_prefix_of(s),
    ensures
        a.is_prefix_of(s),
        b.is_prefix_of(s.skip(a.len() as int)),
{
    let al = a.len() as int;
    let bl = b.len() as int;
    assert((a + b) =~= s.subrange(0, al + bl));
    assert(a =~= s.subrange(0, al));
    assert forall|i: int| 0 <= i < bl implies #[trigger] b[i] == s.skip(al)[i] by {
        assert(b[i] == (a + b)[al + i]);
        assert((a + b)[al + i] == s.subrange(0, al + bl)[al + i]);
    }
    assert(b =~= s.skip(al).subrange(0, bl));
}

proof fn lemma_be_bytes_take(a: nat, k: nat)
    requires
        k >= 1,
    ensures
        be_bytes(a, k).take(k - 1) == be_bytes(a / 256, (k - 1) as nat),
{
    assert forall|i: int| 0 <= i < k - 1 implies be_bytes(a, k)[i] == be_bytes(
        a / 256,
        (k - 1) as nat,
    )[i] by {
        let p = pow256((k - 2 - i) as nat);
        lemma_pow256_pos((k - 2 - i) as nat);
        vstd::arithmetic::div_mod::lemma_div_denominator(a as int, 256, p as int);
        assert(pow256((k - 1 - i) as nat) == 256 * p);
    }
    assert(be_bytes(a, k).take(k - 1) =~= be_bytes(a / 256, (k - 1) as nat));
}

proof fn lemma_be_bytes_injective(a1: nat, a2: nat, k: nat)
    requires
        a1 < pow256(k),
        a2 < pow256(k),
        be_bytes(a1, k) == be_bytes(a2, k),
    ensures
        a1 == a2,
    decreases k,
{
    if k == 0 {
    } else {
        assert(be_bytes(a1, k)[k - 1] == ((a1 / pow256(0)) % 256) as u8);
        assert(pow256(0) == 1);
        assert(a1 / pow256(0) == a1) by (nonlinear_arith)
            requires
                pow256(0) == 1,
        ;
        assert(a2 / pow256(0) == a2) by (nonlinear_arith)
            requires
                pow256(0) == 1,
        ;
        assert(a1 % 256 == a2 % 256);
        lemma_be_bytes_take(a1, k);
        lemma_be_bytes_take(a2, k);
        assert(be_bytes(a1, k).take(k - 1) == be_bytes(a2, k).take(k - 1));
        assert(a1 / 256 < pow256((k - 1) as nat)) by (nonlinear_arith)
            requires
                a1 < pow256(k),
                pow256(k) == 256 * pow256((k - 1) as nat),
        ;
        assert(a2 / 256 < pow256((k - 1) as nat)) by (nonlinear_arith)
            requires
                a2 < pow256(k),
                pow256(k) == 256 * pow256((k - 1) as nat),
        ;
        lemma_be_bytes_injective(a1 / 256, a2 / 256, (k - 1) as nat);
        assert(a1 == 256 * (a1 / 256) + a1 % 256) by (nonlinear_arith);
        assert(a2 == 256 * (a2 / 256) + a2 % 256) by (nonlinear_arith);
    }
}

/// The low-bits code that the canonical header gives this argument.
pub open spec fn head_info(a: u64) -> int {
    if a < 24 {
        a as int
    } else if a < 0x100 {
        24
    } else if a < 0x10000 {
        25
    } else if a < 0x1_0000_0000 {
        26
    } else {
        27
    }
}

/// The canonical header's byte count for this argument.
pub open spec fn head_len(a: u64) -> int {
    if a < 24 {
        1
    } else if a < 0x100 {
        2
    } else if a < 0x10000 {
        3
    } else if a < 0x1_0000_0000 {
        5
    } else {
        9
    }
}

proof fn lemma_enc_head_shape(m: u8, a: u64)
    requires
        m < 8,
    ensures
        enc_head(m, a).len() == head_len(a),
        enc_head(m, a)[0] == ((m as int) * 32 + head_info(a)) as u8,
        (enc_head(m, a)[0] as int) / 32 == m as int,
        (enc_head(m, a)[0] as int) % 32 == head_info(a),
{
    let fb = (m as int) * 32 + head_info(a);
    assert(0 <= fb < 256);
    assert(fb / 32 == m as int && fb % 32 == head_info(a)) by (nonlinear_arith)
        requires
            m < 8,
            0 <= head_info(a) < 32,
            fb == (m as int) * 32 + head_info(a),
    ;
}

proof fn lemma_enc_head_prefix_unique(m1: u8, a1: u64, m2: u8, a2: u64, s: Seq<u8>)
    requires
        m1 < 8,
        m2 < 8,
        enc_head(m1, a1).is_prefix_of(s),
        enc_head(m2, a2).is_prefix_of(s),
    ensures
        m1 == m2,
        a1 == a2,
{
    lemma_enc_head_shape(m1, a1);
    lemma_enc_head_shape(m2, a2);
    assert(enc_head(m1, a1)[0] == s[0]);
    assert(enc_head(m2, a2)[0] == s[0]);
    assert(m1 == m2);
    assert(head_info(a1) == head_info(a2));
    let k = head_len(a1) - 1;
    assert(head_len(a2) - 1 == k);
    if k == 0 {
        assert(a1 == a2);
    } else {
        assert(enc_head(m1, a1).subrange(1, 1 + k) =~= be_bytes(a1 as nat, k as nat));
        assert(enc_head(m1, a1) =~= s.subrange(0, 1 + k));
        assert(be_bytes(a1 as nat, k as nat) =~= s.subrange(1, 1 + k));
        assert(enc_head(m2, a2).subrange(1, 1 + k) =~= be_bytes(a2 as nat, k as nat));
        assert(enc_head(m2, a2) =~= s.subrange(0, 1 + k));
        assert(be_bytes(a2 as nat, k as nat) =~= s.subrange(1, 1 + k));
        reveal_with_fuel(pow256, 9);
        assert((a1 as nat) < pow256(k as nat));
        assert((a2 as nat) < pow256(k as nat));
        lemma_be_bytes_injective(a1 as nat, a2 as nat, k as nat);
    }
}

/// Reads `k` big-endian bytes as an integer.
fn read_be(b: &[u8], pos: usize, k: usize) -> (r: u64)
    requires
        1 <= k <= 8,
        pos + k <= b@.len(),
    ensures
        (r as nat) < pow256(k as nat),
        be_bytes(r as nat, k as nat) == b@.subrange(pos as int, pos + k),
{
    let n = b.len();
    let mut acc: u64 = 0;
    let mut j: usize = 0;
    while j < k
        invariant
            j <= k <= 8,
            n == b@.len(),
            pos + k <= b@.len(),
            (acc as nat) < pow256(j as nat),
            be_bytes(acc as nat, j as nat) == b@.subrange(pos as int, pos + j),
        decreases k - j,
    {
        let byte = b[pos + j];
        proof {
            lemma_pow256_bound(j as nat);
            assert((acc as nat) * 256 + (byte as nat) < pow256((j + 1) as nat)) by (nonlinear_arith)
                requires
                    (acc as nat) < pow256(j as nat),
                    (byte as nat) < 256,
                    pow256((j + 1) as nat) == 256 * pow256(j as nat),
            ;
        }
        let next: u64 = acc * 256 + (byte as u64);
        proof {
            assert((next as nat) / 256 == acc as nat && (next as nat) % 256 == byte as nat)
                by (nonlinear_arith)
                requires
                    next as nat == (acc as nat) * 256 + (byte as nat),
                    (byte as nat) < 256,
            ;
            lemma_be_bytes_take(next as nat, (j + 1) as nat);
            assert(be_bytes(next as nat, (j + 1) as nat).take(j as int) == be_bytes(
                acc as nat,
                j as nat,
            ));
            assert(be_bytes(next as nat, (j + 1) as nat)[j as int] == (((next as nat) / pow256(0))
                % 256) as u8);
            assert((next as nat) / pow256(0) == next as nat) by (nonlinear_arith)
                requires
                    pow256(0) == 1,
            ;
            assert(be_bytes(next as nat, (j + 1) as nat) =~= b@.subrange(pos as int, pos + j + 1))
                by {
                let lhs = be_bytes(next as nat, (j + 1) as nat);
                assert forall|i: int| 0 <= i < j + 1 implies #[trigger] lhs[i] == b@.subrange(
                    pos as int,
                    pos + j + 1,
                )[i] by {
                    if i < j {
                        assert(lhs[i] == lhs.take(j as int)[i]);
                        assert(be_bytes(acc as nat, j as nat)[i] == b@.subrange(
                            pos as int,
                            pos + j,
                        )[i]);
                    }
                }
            }
        }
        acc = next;
        j = j + 1;
    }
    acc
}

/// Reads one canonical item header, or nothing when the bytes at `pos` do
/// not begin any canonical header.
#[verifier::rlimit(60)]
fn read_head(b: &[u8], pos: usize) -> (r: Option<(u8, u64, usize)>)
    requires
        pos <= b@.len(),
    ensures
        match r {
            Some(t) => {
                &&& t.0 < 8
                &&& pos < t.2 <= b@.len()
                &&& t.2 == pos + enc_head(t.0, t.1).len()
                &&& b@.subrange(pos as int, t.2 as int) == enc_head(t.0, t.1)
            },
            None => forall|m: u8, a: u64|
                m < 8 ==> !(#[trigger] enc_head(m, a)).is_prefix_of(b@.skip(pos as int)),
        },
{
    let n = b.len();
    let ghost rem = b@.skip(pos as int);
    if pos >= n {
        proof {
            assert forall|m: u8, a: u64| m < 8 implies !(#[trigger] enc_head(m, a)).is_prefix_of(
                rem,
            ) by {
                lemma_enc_head_shape(m, a);
            }
        }
        return None;
    }
    let fb = b[pos];
    let m: u8 = fb / 32;
    let info: u8 = fb % 32;
    proof {
        assert(rem.len() == b@.len() - pos);
        assert(rem[0] == b@[pos as int]);
        reveal_with_fuel(pow256, 9);
    }
    if info < 24 {
        let p = pos + 1;
        proof {
            assert(fb == 32 * (fb / 32) + fb % 32);
            assert(enc_head(m, info as u64) =~= seq![fb]);
            assert(b@.subrange(pos as int, p as int) =~= seq![fb]);
        }
        return Some((m, info as u64, p));
    }
    if info == 24 {
        if n - pos < 2 {
            proof {
                assert forall|m2: u8, a2: u64| m2 < 8 implies !(#[trigger] enc_head(m2,
                a2)).is_prefix_of(rem) by {
                    lemma_enc_head_shape(m2, a2);
                    if enc_head(m2, a2).is_prefix_of(rem) {
                        assert(enc_head(m2, a2)[0] == rem[0]);
                        assert(head_info(a2) == info);
                    }
                }
            }
            return None;
        }
        let rb = read_be(b, pos + 1, 1);
        if rb >= 24 {
            let p = pos + 2;
            proof {
                assert(fb == 32 * (fb / 32) + fb % 32);
                assert(enc_head(m, rb) =~= seq![fb] + be_bytes(rb as nat, 1));
                lemma_subrange_chain(b@, pos as int, pos + 1, p as int);
                assert(b@.subrange(pos as int, pos + 1) =~= seq![fb]);
            }
            return Some((m, rb, p));
        } else {
            proof {
                assert forall|m2: u8, a2: u64| m2 < 8 implies !(#[trigger] enc_head(m2,
                a2)).is_prefix_of(rem) by {
                    lemma_enc_head_shape(m2, a2);
                    if enc_head(m2, a2).is_prefix_of(rem) {
                        assert(enc_head(m2, a2)[0] == rem[0]);
                        assert(head_info(a2) == info);
                        assert(24 <= a2 < 0x100);
                        assert(enc_head(m2, a2).subrange(1, 2) =~= be_bytes(a2 as nat, 1));
                        assert(enc_head(m2, a2).subrange(1, 2) =~= b@.subrange(pos + 1, pos + 2));
                        lemma_be_bytes_injective(a2 as nat, rb as nat, 1);
                    }
                }
            }
            return None;
        }
    }
    if info == 25 {
        if n - pos < 3 {
            proof {
                assert forall|m2: u8, a2: u64| m2 < 8 implies !(#[trigger] enc_head(m2,
                a2)).is_prefix_of(rem) by {
                    lemma_enc_head_shape(m2, a2);
                    if enc_head(m2, a2).is_prefix_of(rem) {
                        assert(enc_head(m2, a2)[0] == rem[0]);
                        assert(head_info(a2) == info);
                    }
                }
            }
            return None;
        }
        let rb = read_be(b, pos + 1, 2);
        if rb >= 0x100 {
            let p = pos + 3;
            proof {
                assert(fb == 32 * (fb / 32) + fb % 32);
                assert(enc_head(m, rb) =~= seq![fb] + be_bytes(rb as nat, 2));
                lemma_subrange_chain(b@, pos as int, pos + 1, p as int);
                assert(b@.subrange(pos as int, pos + 1) =~= seq![fb]);
            }
            return Some((m, rb, p));
        } else {
            proof {
                assert forall|m2: u8, a2: u64| m2 < 8 implies !(#[trigger] enc_head(m2,
                a2)).is_prefix_of(rem) by {
                    lemma_enc_head_shape(m2, a2);
                    if enc_head(m2, a2).is_prefix_of(rem) {
                        assert(enc_head(m2, a2)[0] == rem[0]);
                        assert(head_info(a2) == info);
                        assert(0x100 <= a2 < 0x10000);
                        assert(enc_head(m2, a2).subrange(1, 3) =~= be_bytes(a2 as nat, 2));
                        assert(enc_head(m2, a2).subrange(1, 3) =~= b@.subrange(pos + 1, pos + 3));
                        lemma_be_bytes_injective(a2 as nat, rb as nat, 2);
                    }
                }
            }
            return None;
        }
    }
    if info == 26 {
        if n - pos < 5 {
            proof {
                assert forall|m2: u8, a2: u64| m2 < 8 implies !(#[trigger] enc_head(m2,
                a2)).is_prefix_of(rem) by {
                    lemma_enc_head_shape(m2, a2);
                    if enc_head(m2, a2).is_prefix_of(rem) {
                        assert(enc_head(m2, a2)[0] == rem[0]);
                        assert(head_info(a2) == info);
                    }
                }
            }
            return None;
        }
        let rb = read_be(b, pos + 1, 4);
        if rb >= 0x10000 {
            let p = pos + 5;
            proof {
                assert(fb == 32 * (fb / 32) + fb % 32);
                assert(enc_head(m, rb) =~= seq![fb] + be_bytes(rb as nat, 4));
                lemma_subrange_chain(b@, pos as int, pos + 1, p as int);
                assert(b@.subrange(pos as int, pos + 1) =~= seq![fb]);
            }
            return Some((m, rb, p));
        } else {
            proof {
                assert forall|m2: u8, a2: u64| m2 < 8 implies !(#[trigger] enc_head(m2,
                a2)).is_prefix_of(rem) by {
                    lemma_enc_head_shape(m2, a2);
                    if enc_head(m2, a2).is_prefix_of(rem) {
                        assert(enc_head(m2, a2)[0] == rem[0]);
                        assert(head_info(a2) == info);
                        assert(0x10000 <= a2 < 0x1_0000_0000);
                        assert(enc_head(m2, a2).subrange(1, 5) =~= be_bytes(a2 as nat, 4));
                        assert(enc_head(m2, a2).subrange(1, 5) =~= b@.subrange(pos + 1, pos + 5));
                        lemma_be_bytes_injective(a2 as nat, rb as nat, 4);
                    }
                }
            }
            return None;
        }
    }
    if info == 27 {
        if n - pos < 9 {
            proof {
                assert forall|m2: u8, a2: u64| m2 < 8 implies !(#[trigger] enc_head(m2,
                a2)).is_prefix_of(rem) by {
                    lemma_enc_head_shape(m2, a2);
                    if enc_head(m2, a2).is_prefix_of(rem) {
                        assert(enc_head(m2, a2)[0] == rem[0]);
                        assert(head_info(a2) == info);
                    }
                }
            }
            return None;
        }
        let rb = read_be(b, pos + 1, 8);
        if rb >= 0x1_0000_0000 {
            let p = pos + 9;
            proof {
                assert(fb == 32 * (fb / 32) + fb % 32);
                assert(enc_head(m, rb) =~= seq![fb] + be_bytes(rb as nat, 8));
                lemma_subrange_chain(b@, pos as int, pos + 1, p as int);
                assert(b@.subrange(pos as int, pos + 1) =~= seq![fb]);
            }
            return Some((m, rb, p));
        } else {
            proof {
                assert forall|m2: u8, a2: u64| m2 < 8 implies !(#[trigger] enc_head(m2,
                a2)).is_prefix_of(rem) by {
                    lemma_enc_head_shape(m2, a2);
                    if enc_head(m2, a2).is_prefix_of(rem) {
                        assert(enc_head(m2, a2)[0] == rem[0]);
                        assert(head_info(a2) == info);
                        assert(0x1_0000_0000 <= a2);
                        assert((a2 as nat) < pow256(8));
                        assert(enc_head(m2, a2).subrange(1, 9) =~= be_bytes(a2 as nat, 8));
                        assert(enc_head(m2, a2).subrange(1, 9) =~= b@.subrange(pos + 1, pos + 9));
                        lemma_be_bytes_injective(a2 as nat, rb as nat, 8);
                    }
                }
            }
            return None;
        }
    }
    proof {
        assert(info >= 28);
        assert forall|m2: u8, a2: u64| m2 < 8 implies !(#[trigger] enc_head(m2, a2)).is_prefix_of(
            rem,
        ) by {
            lemma_enc_head_shape(m2, a2);
            if enc_head(m2, a2).is_prefix_of(rem) {
                assert(enc_head(m2, a2)[0] == rem[0]);
                assert(head_info(a2) == info);
            }
        }
    }
    None
}

/// Tests whether `pat` occurs at position `pos` of `b`.
fn match_bytes(b: &[u8], pos: usize, pat: &[u8]) -> (r: bool)
    requires
        pos <= b@.len(),
    ensures
        r == pat@.is_prefix_of(b@.skip(pos as int)),
{
    let n = b.len();
    let k = pat.len();
    if n - pos < k {
        return false;
    }
    let mut i: usize = 0;
    while i < k
        invariant
            i <= k,
            k <= n - pos,
            n == b@.len(),
            k == pat@.len(),
            pos <= b@.len(),
            forall|j: int| 0 <= j < i ==> b@[pos + j] == pat@[j],
        decreases k - i,
    {
        if b[pos + i] != pat[i] {
            proof {
                assert(b@.skip(pos as int)[i as int] == b@[pos + i]);
                assert(!pat@.is_prefix_of(b@.skip(pos as int)));
            }
            return false;
        }
        i = i + 1;
    }
    proof {
        assert(pat@ =~= b@.skip(pos as int).subrange(0, k as int));
    }
    true
}

/// Matches an exact byte pattern and steps past it.
fn expect_bytes(b: &[u8], pos: usize, pat: &[u8]) -> (r: Option<usize>)
    requires
        pos <= b@.len(),
    ensures
        match r {
            Some(p) => p == pos + pat@.len() && p <= b@.len() && b@.subrange(pos as int, p as int)
                == pat@,
            None => !pat@.is_prefix_of(b@.skip(pos as int)),
        },
{
    let n = b.len();
    if match_bytes(b, pos, pat) {
        proof {
            assert(pat@ =~= b@.subrange(pos as int, pos + pat@.len()));
            assert(pos + pat@.len() <= n);
        }
        Some(pos + pat.len())
    } else {
        None
    }
}

/// Turns UTF-8 bytes back into an owned string, or nothing for bytes that
/// are not UTF-8.
///
/// Relies on `core::str::from_utf8`: it returns the string whose UTF-8
/// encoding is exactly the input, and rejects exactly the byte sequences
/// that are not UTF-8.
#[verifier::external_body]
fn string_from_utf8(bytes: &[u8]) -> (r: Option<String>)
    ensures
        match r {
            Some(s) => encode_utf8(s@) == bytes@ && vstd::utf8::valid_utf8(bytes@),
            None => !vstd::utf8::valid_utf8(bytes@),
        },
{
    match core::str::from_utf8(bytes) {
        Ok(s) => Some(s.to_owned()),
        Err(_) => None,
    }
}

/// Reads a signed integer item.
fn read_i64(b: &[u8], pos: usize) -> (r: Option<(i64, usize)>)
    requires
        pos <= b@.len(),
    ensures
        match r {
            Some(t) => {
                &&& pos < t.1 <= b@.len()
                &&& t.1 == pos + enc_int(t.0).len()
                &&& b@.subrange(pos as int, t.1 as int) == enc_int(t.0)
            },
            None => forall|v: i64| !(#[trigger] enc_int(v)).is_prefix_of(b@.skip(pos as int)),
        },
{
    let ghost rem = b@.skip(pos as int);
    match read_head(b, pos) {
        None => {
            proof {
                assert forall|v: i64| !(#[trigger] enc_int(v)).is_prefix_of(rem) by {
                    if v >= 0 {
                        assert(enc_int(v) == enc_head(0, v as u64));
                    } else {
                        assert(enc_int(v) == enc_head(1, (-1 - v as int) as u64));
                    }
                }
            }
            None
        },
        Some((m, a, p)) => {
            proof {
                assert(enc_head(m, a).is_prefix_of(rem)) by {
                    assert(enc_head(m, a) =~= rem.subrange(0, enc_head(m, a).len() as int));
                }
            }
            if m == 0 && a <= 0x7FFF_FFFF_FFFF_FFFF {
                Some((a as i64, p))
            } else if m == 1 && a <= 0x7FFF_FFFF_FFFF_FFFF {
                let v: i64 = -1 - (a as i64);
                proof {
                    assert(enc_int(v) == enc_head(1, a));
                }
                Some((v, p))
            } else {
                proof {
                    assert forall|v: i64| !(#[trigger] enc_int(v)).is_prefix_of(rem) by {
                        if enc_int(v).is_prefix_of(rem) {
                            if v >= 0 {
                                lemma_enc_head_prefix_unique(0, v as u64, m, a, rem);
                            } else {
                                lemma_enc_head_prefix_unique(1, (-1 - v as int) as u64, m, a, rem);
                            }
                        }
                    }
                }
                None
            }
        },
    }
}

/// Reads an unsigned integer item that must fit an entry id.
fn read_u32(b: &[u8], pos: usize) -> (r: Option<(u32, usize)>)
    requires
        pos <= b@.len(),
    ensures
        match r {
            Some(t) => {
                &&& pos < t.1 <= b@.len()
                &&& t.1 == pos + enc_uint(t.0 as u64).len()
                &&& b@.subrange(pos as int, t.1 as int) == enc_uint(t.0 as u64)
            },
            None => forall|v: u32|
                !(#[trigger] enc_uint(v as u64)).is_prefix_of(b@.skip(pos as int)),
        },
{
    let ghost rem = b@.skip(pos as int);
    match read_head(b, pos) {
        None => {
            proof {
                assert forall|v: u32| !(#[trigger] enc_uint(v as u64)).is_prefix_of(rem) by {
                    assert(enc_uint(v as u64) == enc_head(0, v as u64));
                }
            }
            None
        },
        Some((m, a, p)) => {
            proof {
                assert(enc_head(m, a).is_prefix_of(rem)) by {
                    assert(enc_head(m, a) =~= rem.subrange(0, enc_head(m, a).len() as int));
                }
            }
            if m == 0 && a <= 0xFFFF_FFFF {
                Some((a as u32, p))
            } else {
                proof {
                    assert forall|v: u32| !(#[trigger] enc_uint(v as u64)).is_prefix_of(rem) by {
                        if enc_uint(v as u64).is_prefix_of(rem) {
                            lemma_enc_head_prefix_unique(0, v as u64, m, a, rem);
                        }
                    }
                }
                None
            }
        },
    }
}

/// Reads a text item, rejecting anything that is not a canonical text item
/// with well-formed UTF-8 contents.
fn read_text(b: &[u8], pos: usize) -> (r: Option<(String, usize)>)
    requires
        pos <= b@.len(),
    ensures
        match r {
            Some(t) => {
                &&& pos < t.1 <= b@.len()
                &&& t.1 == pos + enc_text(t.0@).len()
                &&& b@.subrange(pos as int, t.1 as int) == enc_text(t.0@)
                &&& str_encodable(t.0@)
            },
            None => forall|t: Seq<char>|
                str_encodable(t) ==> !(#[trigger] enc_text(t)).is_prefix_of(b@.skip(pos as int)),
        },
{
    broadcast use vstd::utf8::encode_utf8_valid_utf8;

    let n = b.len();
    let ghost rem = b@.skip(pos as int);
    match read_head(b, pos) {
        None => {
            proof {
                assert forall|t: Seq<char>| str_encodable(t) implies !(
                #[trigger] enc_text(t)).is_prefix_of(rem) by {
                    if enc_text(t).is_prefix_of(rem) {
                        let hd = enc_head(3, encode_utf8(t).len() as u64);
                        lemma_prefix_split(hd, encode_utf8(t), rem);
                    }
                }
            }
            None
        },
        Some((m, a, p1)) => {
            proof {
                assert(enc_head(m, a).is_prefix_of(rem)) by {
                    assert(enc_head(m, a) =~= rem.subrange(0, enc_head(m, a).len() as int));
                }
            }
            if m != 3 || a > (n - p1) as u64 {
                proof {
                    assert forall|t: Seq<char>| str_encodable(t) implies !(
                    #[trigger] enc_text(t)).is_prefix_of(rem) by {
                        if enc_text(t).is_prefix_of(rem) {
                            let ulen = encode_utf8(t).len() as u64;
                            let hd = enc_head(3, ulen);
                            lemma_prefix_split(hd, encode_utf8(t), rem);
                            lemma_enc_head_prefix_unique(3, ulen, m, a, rem);
                            assert(enc_text(t).len() == hd.len() + a);
                            assert(enc_text(t).len() <= rem.len());
                        }
                    }
                }
                None
            } else {
                let alen = a as usize;
                let p2 = p1 + alen;
                let chunk = &b[p1..p2];
                proof {
                    assert(chunk@ == b@.subrange(p1 as int, p2 as int));
                }
                match string_from_utf8(chunk) {
                    Some(s) => {
                        proof {
                            assert(encode_utf8(s@).len() == a);
                            lemma_subrange_chain(b@, pos as int, p1 as int, p2 as int);
                            assert(b@.subrange(pos as int, p2 as int) == enc_head(3, a)
                                + encode_utf8(s@));
                            assert(enc_text(s@) == enc_head(3, a) + encode_utf8(s@));
                        }
                        Some((s, p2))
                    },
                    None => {
                        proof {
                            assert forall|t: Seq<char>| str_encodable(t) implies !(
                            #[trigger] enc_text(t)).is_prefix_of(rem) by {
                                if enc_text(t).is_prefix_of(rem) {
                                    let ulen = encode_utf8(t).len() as u64;
                                    let hd = enc_head(3, ulen);
                                    lemma_prefix_split(hd, encode_utf8(t), rem);
                                    lemma_enc_head_prefix_unique(3, ulen, m, a, rem);
                                    assert(encode_utf8(t) =~= rem.skip(hd.len() as int).subrange(
                                        0,
                                        a as int,
                                    ));
                                    assert(encode_utf8(t) =~= chunk@);
                                }
                            }
                        }
                        None
                    },
                }
            }
        },
    }
}

proof fn lemma_enc_int_prefix_unique(v1: i64, v2: i64, s: Seq<u8>)
    requires
        enc_int(v1).is_prefix_of(s),
        enc_int(v2).is_prefix_of(s),
    ensures
        v1 == v2,
{
    if v1 >= 0 && v2 >= 0 {
        lemma_enc_head_prefix_unique(0, v1 as u64, 0, v2 as u64, s);
    } else if v1 >= 0 && v2 < 0 {
        lemma_enc_head_prefix_unique(0, v1 as u64, 1, (-1 - v2 as int) as u64, s);
    } else if v1 < 0 && v2 >= 0 {
        lemma_enc_head_prefix_unique(1, (-1 - v1 as int) as u64, 0, v2 as u64, s);
    } else {
        lemma_enc_head_prefix_unique(1, (-1 - v1 as int) as u64, 1, (-1 - v2 as int) as u64, s);
    }
}

proof fn lemma_enc_text_prefix_unique(t1: Seq<char>, t2: Seq<char>, s: Seq<u8>)
    requires
        str_encodable(t1),
        str_encodable(t2),
        enc_text(t1).is_prefix_of(s),
        enc_text(t2).is_prefix_of(s),
    ensures
        t1 == t2,
{
    broadcast use vstd::utf8::encode_utf8_decode_utf8;

    let l1 = encode_utf8(t1).len() as u64;
    let l2 = encode_utf8(t2).len() as u64;
    lemma_prefix_split(enc_head(3, l1), encode_utf8(t1), s);
    lemma_prefix_split(enc_head(3, l2), encode_utf8(t2), s);
    lemma_enc_head_prefix_unique(3, l1, 3, l2, s);
    assert(encode_utf8(t1) =~= encode_utf8(t2));
    assert(vstd::utf8::decode_utf8(encode_utf8(t1)) == t1);
    assert(vstd::utf8::decode_utf8(encode_utf8(t2)) == t2);
}

proof fn lemma_enc_notes_prefix_unique(n1: Option<Seq<char>>, n2: Option<Seq<char>>, s: Seq<u8>)
    requires
        (n1 matches Some(t) ==> str_encodable(t)),
        (n2 matches Some(t) ==> str_encodable(t)),
        enc_notes(n1).is_prefix_of(s),
        enc_notes(n2).is_prefix_of(s),
    ensures
        n1 == n2,
{
    match (n1, n2) {
        (Option::None, Option::None) => {},
        (Option::Some(t1), Option::Some(t2)) => {
            lemma_enc_text_prefix_unique(t1, t2, s);
        },
        (Option::Some(t), Option::None) => {
            let l = encode_utf8(t).len() as u64;
            lemma_enc_head_shape(3, l);
            lemma_prefix_split(enc_head(3, l), encode_utf8(t), s);
            assert(enc_head(3, l)[0] == s[0]);
            assert(enc_notes(n2)[0] == s[0]);
        },
        (Option::None, Option::Some(t)) => {
            let l = encode_utf8(t).len() as u64;
            lemma_enc_head_shape(3, l);
            lemma_prefix_split(enc_head(3, l), encode_utf8(t), s);
            assert(enc_head(3, l)[0] == s[0]);
            assert(enc_notes(n1)[0] == s[0]);
        },
    }
}

spec fn entry_tail_b(e: EntryModel) -> Seq<u8> {
    key_name() + enc_text(e.name) + key_username() + enc_text(e.username) + key_password()
        + enc_text(e.password) + key_notes() + enc_notes(e.notes)
}

spec fn entry_tail_d(e: EntryModel) -> Seq<u8> {
    key_username() + enc_text(e.username) + key_password() + enc_text(e.password) + key_notes()
        + enc_notes(e.notes)
}

spec fn entry_tail_f(e: EntryModel) -> Seq<u8> {
    key_password() + enc_text(e.password) + key_notes() + enc_notes(e.notes)
}

spec fn entry_tail_h(e: EntryModel) -> Seq<u8> {
    key_notes() + enc_notes(e.notes)
}

/// Positions of the components of one encoded entry, inside a sequence it
/// prefixes.
#[verifier::rlimit(100)]
proof fn lemma_entry_components(e: EntryModel, s: Seq<u8>)
    requires
        enc_entry(e).is_prefix_of(s),
    ensures
        (seq![0xA5u8] + key_id()).is_prefix_of(s),
        enc_uint(e.id as u64).is_prefix_of(s.skip(4)),
        key_name().is_prefix_of(s.skip(4 + enc_uint(e.id as u64).len() as int)),
        enc_text(e.name).is_prefix_of(s.skip(9 + enc_uint(e.id as u64).len() as int)),
        key_username().is_prefix_of(
            s.skip(9 + enc_uint(e.id as u64).len() + enc_text(e.name).len() as int),
        ),
        enc_text(e.username).is_prefix_of(
            s.skip(18 + enc_uint(e.id as u64).len() + enc_text(e.name).len() as int),
        ),
        key_password().is_prefix_of(
            s.skip(
                18 + enc_uint(e.id as u64).len() + enc_text(e.name).len() + enc_text(
                    e.username,
                ).len() as int,
            ),
        ),
        enc_text(e.password).is_prefix_of(
            s.skip(
                27 + enc_uint(e.id as u64).len() + enc_text(e.name).len() + enc_text(
                    e.username,
                ).len() as int,
            ),
        ),
        key_notes().is_prefix_of(
            s.skip(
                27 + enc_uint(e.id as u64).len() + enc_text(e.name).len() + enc_text(
                    e.username,
                ).len() + enc_text(e.password).len() as int,
            ),
        ),
        enc_notes(e.notes).is_prefix_of(
            s.skip(
                33 + enc_uint(e.id as u64).len() + enc_text(e.name).len() + enc_text(
                    e.username,
                ).len() + enc_text(e.password).len() as int,
            ),
        ),
        enc_entry(e).len() == 33 + enc_uint(e.id as u64).len() + enc_text(e.name).len() + enc_text(
            e.username,
        ).len() + enc_text(e.password).len() + enc_notes(e.notes).len(),
{
    let hd = seq![0xA5u8] + key_id();
    let u = enc_uint(e.id as u64);
    let tn = enc_text(e.name);
    let tu = enc_text(e.username);
    let tp = enc_text(e.password);
    let no = enc_notes(e.notes);
    lemma_prefix_split(hd, u + (key_name() + (tn + (key_username() + (tu + (key_password() + (tp
        + (key_notes() + no))))))), s);
    let s1 = s.skip(4);
    lemma_prefix_split(u, key_name() + (tn + (key_username() + (tu + (key_password() + (tp + (
    key_notes() + no)))))), s1);
    let s2 = s1.skip(u.len() as int);
    lemma_prefix_split(key_name(), tn + (key_username() + (tu + (key_password() + (tp + (
    key_notes() + no))))), s2);
    let s3 = s2.skip(5);
    lemma_prefix_split(tn, key_username() + (tu + (key_password() + (tp + (key_notes() + no)))), s3);
    let s4 = s3.skip(tn.len() as int);
    lemma_prefix_split(key_username(), tu + (key_password() + (tp + (key_notes() + no))), s4);
    let s5 = s4.skip(9);
    lemma_prefix_split(tu, key_password() + (tp + (key_notes() + no)), s5);
    let s6 = s5.skip(tu.len() as int);
    lemma_prefix_split(key_password(), tp + (key_notes() + no), s6);
    let s7 = s6.skip(9);
    lemma_prefix_split(tp, key_notes() + no, s7);
    let s8 = s7.skip(tp.len() as int);
    lemma_prefix_split(key_notes(), no, s8);
    let s9 = s8.skip(6);
    assert(s1.skip(u.len() as int) =~= s.skip(4 + u.len() as int));
    assert(s2.skip(5) =~= s.skip(9 + u.len() as int));
    assert(s3.skip(tn.len() as int) =~= s.skip(9 + u.len() + tn.len() as int));
    assert(s4.skip(9) =~= s.skip(18 + u.len() + tn.len() as int));
    assert(s5.skip(tu.len() as int) =~= s.skip(18 + u.len() + tn.len() + tu.len() as int));
    assert(s6.skip(9) =~= s.skip(27 + u.len() + tn.len() + tu.len() as int));
    assert(s7.skip(tp.len() as int) =~= s.skip(27 + u.len() + tn.len() + tu.len() + tp.len()
        as int));
    assert(s8.skip(6) =~= s.skip(33 + u.len() + tn.len() + tu.len() + tp.len() as int));
}

proof fn lemma_enc_entry_prefix_unique(e1: EntryModel, e2: EntryModel, s: Seq<u8>)
    requires
        entry_encodable(e1),
        entry_encodable(e2),
        enc_entry(e1).is_prefix_of(s),
        enc_entry(e2).is_prefix_of(s),
    ensures
        e1 == e2,
{
    lemma_entry_components(e1, s);
    lemma_entry_components(e2, s);
    lemma_enc_head_prefix_unique(0, e1.id as u64, 0, e2.id as u64, s.skip(4));
    assert(e1.id == e2.id);
    let u = enc_uint(e1.id as u64);
    lemma_enc_text_prefix_unique(e1.name, e2.name, s.skip(9 + u.len() as int));
    assert(e1.name == e2.name);
    let tn = enc_text(e1.name);
    lemma_enc_text_prefix_unique(e1.username, e2.username, s.skip(18 + u.len() + tn.len() as int));
    assert(e1.username == e2.username);
    let tu = enc_text(e1.username);
    lemma_enc_text_prefix_unique(
        e1.password,
        e2.password,
        s.skip(27 + u.len() + tn.len() + tu.len() as int),
    );
    assert(e1.password == e2.password);
    let tp = enc_text(e1.password);
    lemma_enc_notes_prefix_unique(
        e1.notes,
        e2.notes,
        s.skip(33 + u.len() + tn.len() + tu.len() + tp.len() as int),
    );
}

proof fn lemma_subrange_prefix(s: Seq<u8>, p: int, q: int)
    requires
        0 <= p <= q <= s.len(),
    ensures
        s.subrange(p, q).is_prefix_of(s.skip(p)),
{
    assert(s.subrange(p, q) =~= s.skip(p).subrange(0, q - p));
}

proof fn lemma_entry_fail_start(b: Seq<u8>, pos: int)
    requires
        0 <= pos <= b.len(),
        !(seq![0xA5u8] + key_id()).is_prefix_of(b.skip(pos)),
    ensures
        forall|e: EntryModel|
            entry_encodable(e) ==> !(#[trigger] enc_entry(e)).is_prefix_of(b.skip(pos)),
{
    assert forall|e: EntryModel| entry_encodable(e) implies !(
    #[trigger] enc_entry(e)).is_prefix_of(b.skip(pos)) by {
        if enc_entry(e).is_prefix_of(b.skip(pos)) {
            lemma_entry_components(e, b.skip(pos));
        }
    }
}

proof fn lemma_entry_fail_id(b: Seq<u8>, pos: int, p0: int)
    requires
        0 <= pos <= p0 <= b.len(),
        p0 == pos + 4,
        forall|v: u32| !(#[trigger] enc_uint(v as u64)).is_prefix_of(b.skip(p0)),
    ensures
        forall|e: EntryModel|
            entry_encodable(e) ==> !(#[trigger] enc_entry(e)).is_prefix_of(b.skip(pos)),
{
    assert forall|e: EntryModel| entry_encodable(e) implies !(
    #[trigger] enc_entry(e)).is_prefix_of(b.skip(pos)) by {
        if enc_entry(e).is_prefix_of(b.skip(pos)) {
            lemma_entry_components(e, b.skip(pos));
            assert(b.skip(pos).skip(4) =~= b.skip(p0));
        }
    }
}

proof fn lemma_entry_sync_id(e: EntryModel, b: Seq<u8>, pos: int, p0: int, p1: int, id: u32)
    requires
        0 <= pos <= p0 <= p1 <= b.len(),
        p0 == pos + 4,
        b.subrange(p0, p1) == enc_uint(id as u64),
        enc_entry(e).is_prefix_of(b.skip(pos)),
    ensures
        e.id == id,
        p1 == p0 + enc_uint(e.id as u64).len(),
        key_name().is_prefix_of(b.skip(p1)) || !enc_entry(e).is_prefix_of(b.skip(pos)),
        enc_text(e.name).is_prefix_of(b.skip(p1 + 5)) || p1 + 5 > b.len(),
{
    lemma_entry_components(e, b.skip(pos));
    lemma_subrange_prefix(b, p0, p1);
    assert(b.skip(pos).skip(4) =~= b.skip(p0));
    lemma_enc_head_prefix_unique(0, e.id as u64, 0, id as u64, b.skip(p0));
    let ul = enc_uint(e.id as u64).len() as int;
    assert(b.skip(pos).skip(4 + ul) =~= b.skip(p1));
    if p1 + 5 <= b.len() {
        assert(b.skip(pos).skip(9 + ul) =~= b.skip(p1 + 5));
    }
}

proof fn lemma_entry_fail_key_name(b: Seq<u8>, pos: int, p0: int, p1: int, id: u32)
    requires
        0 <= pos <= p0 <= p1 <= b.len(),
        p0 == pos + 4,
        b.subrange(p0, p1) == enc_uint(id as u64),
        !key_name().is_prefix_of(b.skip(p1)),
    ensures
        forall|e: EntryModel|
            entry_encodable(e) ==> !(#[trigger] enc_entry(e)).is_prefix_of(b.skip(pos)),
{
    assert forall|e: EntryModel| entry_encodable(e) implies !(
    #[trigger] enc_entry(e)).is_prefix_of(b.skip(pos)) by {
        if enc_entry(e).is_prefix_of(b.skip(pos)) {
            lemma_entry_sync_id(e, b, pos, p0, p1, id);
        }
    }
}

proof fn lemma_entry_fail_name(b: Seq<u8>, pos: int, p0: int, p1: int, p2: int, id: u32)
    requires
        0 <= pos <= p0 <= p1 <= p2 <= b.len(),
        p0 == pos + 4,
        p2 == p1 + 5,
        b.subrange(p0, p1) == enc_uint(id as u64),
        b.subrange(p1, p2) == key_name(),
        forall|t: Seq<char>|
            str_encodable(t) ==> !(#[trigger] enc_text(t)).is_prefix_of(b.skip(p2)),
    ensures
        forall|e: EntryModel|
            entry_encodable(e) ==> !(#[trigger] enc_entry(e)).is_prefix_of(b.skip(pos)),
{
    assert forall|e: EntryModel| entry_encodable(e) implies !(
    #[trigger] enc_entry(e)).is_prefix_of(b.skip(pos)) by {
        if enc_entry(e).is_prefix_of(b.skip(pos)) {
            lemma_entry_sync_id(e, b, pos, p0, p1, id);
            assert(enc_text(e.name).is_prefix_of(b.skip(p2)));
        }
    }
}

proof fn lemma_entry_sync_name(
    e: EntryModel,
    b: Seq<u8>,
    pos: int,
    p0: int,
    p1: int,
    p2: int,
    p3: int,
    id: u32,
    name: Seq<char>,
)
    requires
        0 <= pos <= p0 <= p1 <= p2 <= p3 <= b.len(),
        p0 == pos + 4,
        p2 == p1 + 5,
        b.subrange(p0, p1) == enc_uint(id as u64),
        b.subrange(p1, p2) == key_name(),
        b.subrange(p2, p3) == enc_text(name),
        str_encodable(name),
        entry_encodable(e),
        enc_entry(e).is_prefix_of(b.skip(pos)),
    ensures
        e.id == id,
        e.name == name,
        p3 == p2 + enc_text(e.name).len(),
        key_username().is_prefix_of(b.skip(p3)),
        enc_text(e.username).is_prefix_of(b.skip(p3 + 9)) || p3 + 9 > b.len(),
{
    lemma_entry_components(e, b.skip(pos));
    lemma_entry_sync_id(e, b, pos, p0, p1, id);
    lemma_subrange_prefix(b, p2, p3);
    lemma_enc_text_prefix_unique(e.name, name, b.skip(p2));
    let ul = enc_uint(e.id as u64).len() as int;
    let nl = enc_text(e.name).len() as int;
    assert(b.skip(pos).skip(9 + ul + nl) =~= b.skip(p3));
    if p3 + 9 <= b.len() {
        assert(b.skip(pos).skip(18 + ul + nl) =~= b.skip(p3 + 9));
    }
}

proof fn lemma_entry_fail_key_user(
    b: Seq<u8>,
    pos: int,
    p0: int,
    p1: int,
    p2: int,
    p3: int,
    id: u32,
    name: Seq<char>,
)
    requires
        0 <= pos <= p0 <= p1 <= p2 <= p3 <= b.len(),
        p0 == pos + 4,
        p2 == p1 + 5,
        b.subrange(p0, p1) == enc_uint(id as u64),
        b.subrange(p1, p2) == key_name(),
        b.subrange(p2, p3) == enc_text(name),
        str_encodable(name),
        !key_username().is_prefix_of(b.skip(p3)),
    ensures
        forall|e: EntryModel|
            entry_encodable(e) ==> !(#[trigger] enc_entry(e)).is_prefix_of(b.skip(pos)),
{
    assert forall|e: EntryModel| entry_encodable(e) implies !(
    #[trigger] enc_entry(e)).is_prefix_of(b.skip(pos)) by {
        if enc_entry(e).is_prefix_of(b.skip(pos)) {
            lemma_entry_sync_name(e, b, pos, p0, p1, p2, p3, id, name);
        }
    }
}

proof fn lemma_entry_fail_user(
    b: Seq<u8>,
    pos: int,
    p0: int,
    p1: int,
    p2: int,
    p3: int,
    p4: int,
    id: u32,
    name: Seq<char>,
)
    requires
        0 <= pos <= p0 <= p1 <= p2 <= p3 <= p4 <= b.len(),
        p0 == pos + 4,
        p2 == p1 + 5,
        p4 == p3 + 9,
        b.subrange(p0, p1) == enc_uint(id as u64),
        b.subrange(p1, p2) == key_name(),
        b.subrange(p2, p3) == enc_text(name),
        str_encodable(name),
        b.subrange(p3, p4) == key_username(),
        forall|t: Seq<char>|
            str_encodable(t) ==> !(#[trigger] enc_text(t)).is_prefix_of(b.skip(p4)),
    ensures
        forall|e: EntryModel|
            entry_encodable(e) ==> !(#[trigger] enc_entry(e)).is_prefix_of(b.skip(pos)),
{
    assert forall|e: EntryModel| entry_encodable(e) implies !(
    #[trigger] enc_entry(e)).is_prefix_of(b.skip(pos)) by {
        if enc_entry(e).is_prefix_of(b.skip(pos)) {
            lemma_entry_sync_name(e, b, pos, p0, p1, p2, p3, id, name);
            assert(enc_text(e.username).is_prefix_of(b.skip(p4)));
        }
    }
}

proof fn lemma_entry_sync_user(
    e: EntryModel,
    b: Seq<u8>,
    pos: int,
    p0: int,
    p1: int,
    p2: int,
    p3: int,
    p4: int,
    p5: int,
    id: u32,
    name: Seq<char>,
    username: Seq<char>,
)
    requires
        0 <= pos <= p0 <= p1 <= p2 <= p3 <= p4 <= p5 <= b.len(),
        p0 == pos + 4,
        p2 == p1 + 5,
        p4 == p3 + 9,
        b.subrange(p0, p1) == enc_uint(id as u64),
        b.subrange(p1, p2) == key_name(),
        b.subrange(p2, p3) == enc_text(name),
        str_encodable(name),
        b.subrange(p3, p4) == key_username(),
        b.subrange(p4, p5) == enc_text(username),
        str_encodable(username),
        entry_encodable(e),
        enc_entry(e).is_prefix_of(b.skip(pos)),
    ensures
        e.id == id,
        e.name == name,
        e.username == username,
        p5 == p4 + enc_text(e.username).len(),
        key_password().is_prefix_of(b.skip(p5)),
        enc_text(e.password).is_prefix_of(b.skip(p5 + 9)) || p5 + 9 > b.len(),
{
    lemma_entry_components(e, b.skip(pos));
    lemma_entry_sync_name(e, b, pos, p0, p1, p2, p3, id, name);
    lemma_subrange_prefix(b, p4, p5);
    lemma_enc_text_prefix_unique(e.username, username, b.skip(p4));
    let ul = enc_uint(e.id as u64).len() as int;
    let nl = enc_text(e.name).len() as int;
    let ql = enc_text(e.username).len() as int;
    assert(b.skip(pos).skip(18 + ul + nl + ql) =~= b.skip(p5));
    if p5 + 9 <= b.len() {
        assert(b.skip(pos).skip(27 + ul + nl + ql) =~= b.skip(p5 + 9));
    }
}

proof fn lemma_entry_fail_key_pass(
    b: Seq<u8>,
    pos: int,
    p0: int,
    p1: int,
    p2: int,
    p3: int,
    p4: int,
    p5: int,
    id: u32,
    name: Seq<char>,
    username: Seq<char>,
)
    requires
        0 <= pos <= p0 <= p1 <= p2 <= p3 <= p4 <= p5 <= b.len(),
        p0 == pos + 4,
        p2 == p1 + 5,
        p4 == p3 + 9,
        b.subrange(p0, p1) == enc_uint(id as u64),
        b.subrange(p1, p2) == key_name(),
        b.subrange(p2, p3) == enc_text(name),
        str_encodable(name),
        b.subrange(p3, p4) == key_username(),
        b.subrange(p4, p5) == enc_text(username),
        str_encodable(username),
        !key_password().is_prefix_of(b.skip(p5)),
    ensures
        forall|e: EntryModel|
            entry_encodable(e) ==> !(#[trigger] enc_entry(e)).is_prefix_of(b.skip(pos)),
{
    assert forall|e: EntryModel| entry_encodable(e) implies !(
    #[trigger] enc_entry(e)).is_prefix_of(b.skip(pos)) by {
        if enc_entry(e).is_prefix_of(b.skip(pos)) {
            lemma_entry_sync_user(e, b, pos, p0, p1, p2, p3, p4, p5, id, name, username);
        }
    }
}

proof fn lemma_entry_fail_pass(
    b: Seq<u8>,
    pos: int,
    p0: int,
    p1: int,
    p2: int,
    p3: int,
    p4: int,
    p5: int,
    p6: int,
    id: u32,
    name: Seq<char>,
    username: Seq<char>,
)
    requires
        0 <= pos <= p0 <= p1 <= p2 <= p3 <= p4 <= p5 <= p6 <= b.len(),
        p0 == pos + 4,
        p2 == p1 + 5,
        p4 == p3 + 9,
        p6 == p5 + 9,
        b.subrange(p0, p1) == enc_uint(id as u64),
        b.subrange(p1, p2) == key_name(),
        b.subrange(p2, p3) == enc_text(name),
        str_encodable(name),
        b.subrange(p3, p4) == key_username(),
        b.subrange(p4, p5) == enc_text(username),
        str_encodable(username),
        b.subrange(p5, p6) == key_password(),
        forall|t: Seq<char>|
            str_encodable(t) ==> !(#[trigger] enc_text(t)).is_prefix_of(b.skip(p6)),
    ensures
        forall|e: EntryModel|
            entry_encodable(e) ==> !(#[trigger] enc_entry(e)).is_prefix_of(b.skip(pos)),
{
    assert forall|e: EntryModel| entry_encodable(e) implies !(
    #[trigger] enc_entry(e)).is_prefix_of(b.skip(pos)) by {
        if enc_entry(e).is_prefix_of(b.skip(pos)) {
            lemma_entry_sync_user(e, b, pos, p0, p1, p2, p3, p4, p5, id, name, username);
            assert(enc_text(e.password).is_prefix_of(b.skip(p6)));
        }
    }
}

proof fn lemma_entry_sync_pass(
    e: EntryModel,
    b: Seq<u8>,
    pos: int,
    p0: int,
    p1: int,
    p2: int,
    p3: int,
    p4: int,
    p5: int,
    p6: int,
    p7: int,
    id: u32,
    name: Seq<char>,
    username: Seq<char>,
    password: Seq<char>,
)
    requires
        0 <= pos <= p0 <= p1 <= p2 <= p3 <= p4 <= p5 <= p6 <= p7 <= b.len(),
        p0 == pos + 4,
        p2 == p1 + 5,
        p4 == p3 + 9,
        p6 == p5 + 9,
        b.subrange(p0, p1) == enc_uint(id as u64),
        b.subrange(p1, p2) == key_name(),
        b.subrange(p2, p3) == enc_text(name),
        str_encodable(name),
        b.subrange(p3, p4) == key_username(),
        b.subrange(p4, p5) == enc_text(username),
        str_encodable(username),
        b.subrange(p5, p6) == key_password(),
        b.subrange(p6, p7) == enc_text(password),
        str_encodable(password),
        entry_encodable(e),
        enc_entry(e).is_prefix_of(b.skip(pos)),
    ensures
        e.id == id,
        e.name == name,
        e.username == username,
        e.password == password,
        p7 == p6 + enc_text(e.password).len(),
        key_notes().is_prefix_of(b.skip(p7)),
        enc_notes(e.notes).is_prefix_of(b.skip(p7 + 6)) || p7 + 6 > b.len(),
{
    lemma_entry_components(e, b.skip(pos));
    lemma_entry_sync_user(e, b, pos, p0, p1, p2, p3, p4, p5, id, name, username);
    lemma_subrange_prefix(b, p6, p7);
    lemma_enc_text_prefix_unique(e.password, password, b.skip(p6));
    let ul = enc_uint(e.id as u64).len() as int;
    let nl = enc_text(e.name).len() as int;
    let ql = enc_text(e.username).len() as int;
    let wl = enc_text(e.password).len() as int;
    assert(b.skip(pos).skip(27 + ul + nl + ql + wl) =~= b.skip(p7));
    if p7 + 6 <= b.len() {
        assert(b.skip(pos).skip(33 + ul + nl + ql + wl) =~= b.skip(p7 + 6));
    }
}

proof fn lemma_entry_fail_key_notes(
    b: Seq<u8>,
    pos: int,
    p0: int,
    p1: int,
    p2: int,
    p3: int,
    p4: int,
    p5: int,
    p6: int,
    p7: int,
    id: u32,
    name: Seq<char>,
    username: Seq<char>,
    password: Seq<char>,
)
    requires
        0 <= pos <= p0 <= p1 <= p2 <= p3 <= p4 <= p5 <= p6 <= p7 <= b.len(),
        p0 == pos + 4,
        p2 == p1 + 5,
        p4 == p3 + 9,
        p6 == p5 + 9,
        b.subrange(p0, p1) == enc_uint(id as u64),
        b.subrange(p1, p2) == key_name(),
        b.subrange(p2, p3) == enc_text(name),
        str_encodable(name),
        b.subrange(p3, p4) == key_username(),
        b.subrange(p4, p5) == enc_text(username),
        str_encodable(username),
        b.subrange(p5, p6) == key_password(),
        b.subrange(p6, p7) == enc_text(password),
        str_encodable(password),
        !key_notes().is_prefix_of(b.skip(p7)),
    ensures
        forall|e: EntryModel|
            entry_encodable(e) ==> !(#[trigger] enc_entry(e)).is_prefix_of(b.skip(pos)),
{
    assert forall|e: EntryModel| entry_encodable(e) implies !(
    #[trigger] enc_entry(e)).is_prefix_of(b.skip(pos)) by {
        if enc_entry(e).is_prefix_of(b.skip(pos)) {
            lemma_entry_sync_pass(
                e,
                b,
                pos,
                p0,
                p1,
                p2,
                p3,
                p4,
                p5,
                p6,
                p7,
                id,
                name,
                username,
                password,
            );
        }
    }
}

proof fn lemma_entry_fail_notes(
    b: Seq<u8>,
    pos: int,
    p0: int,
    p1: int,
    p2: int,
    p3: int,
    p4: int,
    p5: int,
    p6: int,
    p7: int,
    p8: int,
    id: u32,
    name: Seq<char>,
    username: Seq<char>,
    password: Seq<char>,
)
    requires
        0 <= pos <= p0 <= p1 <= p2 <= p3 <= p4 <= p5 <= p6 <= p7 <= p8 <= b.len(),
        p0 == pos + 4,
        p2 == p1 + 5,
        p4 == p3 + 9,
        p6 == p5 + 9,
        p8 == p7 + 6,
        b.subrange(p0, p1) == enc_uint(id as u64),
        b.subrange(p1, p2) == key_name(),
        b.subrange(p2, p3) == enc_text(name),
        str_encodable(name),
        b.subrange(p3, p4) == key_username(),
        b.subrange(p4, p5) == enc_text(username),
        str_encodable(username),
        b.subrange(p5, p6) == key_password(),
        b.subrange(p6, p7) == enc_text(password),
        str_encodable(password),
        b.subrange(p7, p8) == key_notes(),
        p8 < b.len() ==> b[p8] != 0xF6,
        forall|t: Seq<char>|
            str_encodable(t) ==> !(#[trigger] enc_text(t)).is_prefix_of(b.skip(p8)),
    ensures
        forall|e: EntryModel|
            entry_encodable(e) ==> !(#[trigger] enc_entry(e)).is_prefix_of(b.skip(pos)),
{
    assert forall|e: EntryModel| entry_encodable(e) implies !(
    #[trigger] enc_entry(e)).is_prefix_of(b.skip(pos)) by {
        if enc_entry(e).is_prefix_of(b.skip(pos)) {
            lemma_entry_sync_pass(
                e,
                b,
                pos,
                p0,
                p1,
                p2,
                p3,
                p4,
                p5,
                p6,
                p7,
                id,
                name,
                username,
                password,
            );
            assert(enc_notes(e.notes).is_prefix_of(b.skip(p8)));
            match e.notes {
                Option::None => {
                    assert(enc_notes(e.notes) == seq![0xF6u8]);
                    assert(seq![0xF6u8].len() == 1);
                    assert(1 <= b.skip(p8).len());
                    assert(p8 < b.len());
                    assert(b.skip(p8).subrange(0, 1) =~= seq![0xF6u8]);
                    assert(b.skip(p8)[0] == seq![0xF6u8][0]);
                    assert(b[p8] == 0xF6);
                },
                Option::Some(t) => {
                    assert(enc_text(t).is_prefix_of(b.skip(p8)));
                },
            }
        }
    }
}

fn vec_entry_start() -> (r: Vec<u8>)
    ensures
        r@ == seq![0xA5u8] + key_id(),
{
    let mut v: Vec<u8> = Vec::new();
    v.push(0xA5);
    v.push(0x62);
    v.push(0x69);
    v.push(0x64);
    proof {
        assert(v@ =~= seq![0xA5u8] + key_id());
    }
    v
}

/// Reads one encoded entry, or nothing when the bytes at `pos` do not begin
/// the encoding of any entry.
#[verifier::rlimit(100)]
fn read_entry(b: &[u8], pos: usize) -> (r: Option<(Entry, usize)>)
    requires
        pos <= b@.len(),
    ensures
        match r {
            Some(t) => {
                &&& pos < t.1 <= b@.len()
                &&& t.1 == pos + enc_entry(t.0@).len()
                &&& b@.subrange(pos as int, t.1 as int) == enc_entry(t.0@)
                &&& entry_encodable(t.0@)
            },
            None => forall|e: EntryModel|
                entry_encodable(e) ==> !(#[trigger] enc_entry(e)).is_prefix_of(
                    b@.skip(pos as int),
                ),
        },
{
    let n = b.len();
    let start = vec_entry_start();
    let p0 = match expect_bytes(b, pos, start.as_slice()) {
        Some(p) => p,
        None => {
            proof {
                lemma_entry_fail_start(b@, pos as int);
            }
            return None;
        },
    };
    let (id, p1) = match read_u32(b, p0) {
        Some(t) => t,
        None => {
            proof {
                lemma_entry_fail_id(b@, pos as int, p0 as int);
            }
            return None;
        },
    };
    let kname = vec_key_name();
    let p2 = match expect_bytes(b, p1, kname.as_slice()) {
        Some(p) => p,
        None => {
            proof {
                lemma_entry_fail_key_name(b@, pos as int, p0 as int, p1 as int, id);
            }
            return None;
        },
    };
    let (name, p3) = match read_text(b, p2) {
        Some(t) => t,
        None => {
            proof {
                lemma_entry_fail_name(b@, pos as int, p0 as int, p1 as int, p2 as int, id);
            }
            return None;
        },
    };
    let kuser = vec_key_username();
    let p4 = match expect_bytes(b, p3, kuser.as_slice()) {
        Some(p) => p,
        None => {
            proof {
                lemma_entry_fail_key_user(
                    b@,
                    pos as int,
                    p0 as int,
                    p1 as int,
                    p2 as int,
                    p3 as int,
                    id,
                    name@,
                );
            }
            return None;
        },
    };
    let (username, p5) = match read_text(b, p4) {
        Some(t) => t,
        None => {
            proof {
                lemma_entry_fail_user(
                    b@,
                    pos as int,
                    p0 as int,
                    p1 as int,
                    p2 as int,
                    p3 as int,
                    p4 as int,
                    id,
                    name@,
                );
            }
            return None;
        },
    };
    let kpass = vec_key_password();
    let p6 = match expect_bytes(b, p5, kpass.as_slice()) {
        Some(p) => p,
        None => {
            proof {
                lemma_entry_fail_key_pass(
                    b@,
                    pos as int,
                    p0 as int,
                    p1 as int,
                    p2 as int,
                    p3 as int,
                    p4 as int,
                    p5 as int,
                    id,
                    name@,
                    username@,
                );
            }
            return None;
        },
    };
    let (password, p7) = match read_text(b, p6) {
        Some(t) => t,
        None => {
            proof {
                lemma_entry_fail_pass(
                    b@,
                    pos as int,
                    p0 as int,
                    p1 as int,
                    p2 as int,
                    p3 as int,
                    p4 as int,
                    p5 as int,
                    p6 as int,
                    id,
                    name@,
                    username@,
                );
            }
            return None;
        },
    };
    let knotes = vec_key_notes();
    let p8 = match expect_bytes(b, p7, knotes.as_slice()) {
        Some(p) => p,
        None => {
            proof {
                lemma_entry_fail_key_notes(
                    b@,
                    pos as int,
                    p0 as int,
                    p1 as int,
                    p2 as int,
                    p3 as int,
                    p4 as int,
                    p5 as int,
                    p6 as int,
                    p7 as int,
                    id,
                    name@,
                    username@,
                    password@,
                );
            }
            return None;
        },
    };
    let (notes, p9): (Option<String>, usize) = if p8 < n && b[p8] == 0xF6 {
        proof {
            assert(b@.subrange(p8 as int, p8 + 1) =~= seq![0xF6u8]);
        }
        (None, p8 + 1)
    } else {
        match read_text(b, p8) {
            Some(t) => (Some(t.0), t.1),
            None => {
                proof {
                    lemma_entry_fail_notes(
                        b@,
                        pos as int,
                        p0 as int,
                        p1 as int,
                        p2 as int,
                        p3 as int,
                        p4 as int,
                        p5 as int,
                        p6 as int,
                        p7 as int,
                        p8 as int,
                        id,
                        name@,
                        username@,
                        password@,
                    );
                }
                return None;
            },
        }
    };
    let entry = Entry { id, name, username, password, notes };
    proof {
        lemma_subrange_chain(b@, pos as int, p0 as int, p1 as int);
        lemma_subrange_chain(b@, pos as int, p1 as int, p2 as int);
        lemma_subrange_chain(b@, pos as int, p2 as int, p3 as int);
        lemma_subrange_chain(b@, pos as int, p3 as int, p4 as int);
        lemma_subrange_chain(b@, pos as int, p4 as int, p5 as int);
        lemma_subrange_chain(b@, pos as int, p5 as int, p6 as int);
        lemma_subrange_chain(b@, pos as int, p6 as int, p7 as int);
        lemma_subrange_chain(b@, pos as int, p7 as int, p8 as int);
        lemma_subrange_chain(b@, pos as int, p8 as int, p9 as int);
        assert(b@.subrange(pos as int, p9 as int) =~= enc_entry(entry@));
    }
    Some((entry, p9))
}

/// Positions of the components of one encoded vault, inside a sequence it
/// prefixes.
#[verifier::rlimit(100)]
proof fn lemma_vault_components(v: VaultModel, s: Seq<u8>)
    requires
        spec_encode_vault(v).is_prefix_of(s),
    ensures
        (seq![0xA3u8] + key_created_at()).is_prefix_of(s),
        enc_int(v.created_at).is_prefix_of(s.skip(12)),
        key_last_modified().is_prefix_of(s.skip(12 + enc_int(v.created_at).len() as int)),
        enc_int(v.last_modified).is_prefix_of(s.skip(26 + enc_int(v.created_at).len() as int)),
        key_entries().is_prefix_of(
            s.skip(26 + enc_int(v.created_at).len() + enc_int(v.last_modified).len() as int),
        ),
        enc_head(4, v.entries.len() as u64).is_prefix_of(
            s.skip(34 + enc_int(v.created_at).len() + enc_int(v.last_modified).len() as int),
        ),
        enc_entries(v.entries).is_prefix_of(
            s.skip(
                34 + enc_int(v.created_at).len() + enc_int(v.last_modified).len() + enc_head(
                    4,
                    v.entries.len() as u64,
                ).len() as int,
            ),
        ),
        spec_encode_vault(v).len() == 34 + enc_int(v.created_at).len() + enc_int(
            v.last_modified,
        ).len() + enc_head(4, v.entries.len() as u64).len() + enc_entries(v.entries).len(),
{
    let hd = seq![0xA3u8] + key_created_at();
    let c1 = enc_int(v.created_at);
    let c2 = enc_int(v.last_modified);
    let ch = enc_head(4, v.entries.len() as u64);
    let es = enc_entries(v.entries);
    lemma_prefix_split(hd, c1 + (key_last_modified() + (c2 + (key_entries() + (ch + es)))), s);
    let s1 = s.skip(12);
    lemma_prefix_split(c1, key_last_modified() + (c2 + (key_entries() + (ch + es))), s1);
    let s2 = s1.skip(c1.len() as int);
    lemma_prefix_split(key_last_modified(), c2 + (key_entries() + (ch + es)), s2);
    let s3 = s2.skip(14);
    lemma_prefix_split(c2, key_entries() + (ch + es), s3);
    let s4 = s3.skip(c2.len() as int);
    lemma_prefix_split(key_entries(), ch + es, s4);
    let s5 = s4.skip(8);
    lemma_prefix_split(ch, es, s5);
    let s6 = s5.skip(ch.len() as int);
    assert(s1.skip(c1.len() as int) =~= s.skip(12 + c1.len() as int));
    assert(s2.skip(14) =~= s.skip(26 + c1.len() as int));
    assert(s3.skip(c2.len() as int) =~= s.skip(26 + c1.len() + c2.len() as int));
    assert(s4.skip(8) =~= s.skip(34 + c1.len() + c2.len() as int));
    assert(s5.skip(ch.len() as int) =~= s.skip(34 + c1.len() + c2.len() + ch.len() as int));
}

proof fn lemma_vault_sync(
    v: VaultModel,
    b: Seq<u8>,
    q1: int,
    q3: int,
    q5: int,
    c: i64,
    lm: i64,
    count: u64,
)
    requires
        vault_encodable(v),
        spec_encode_vault(v).is_prefix_of(b),
        12 <= q1,
        q1 + 14 <= q3,
        q3 + 8 <= q5 <= b.len(),
        b.subrange(12, q1) == enc_int(c),
        b.subrange(q1, q1 + 14) == key_last_modified(),
        b.subrange(q1 + 14, q3) == enc_int(lm),
        b.subrange(q3, q3 + 8) == key_entries(),
        b.subrange(q3 + 8, q5) == enc_head(4, count),
    ensures
        v.created_at == c,
        v.last_modified == lm,
        v.entries.len() == count,
        enc_entries(v.entries).is_prefix_of(b.skip(q5)),
        spec_encode_vault(v).len() == q5 + enc_entries(v.entries).len(),
{
    lemma_vault_components(v, b);
    assert(b.skip(0) =~= b);
    lemma_subrange_prefix(b, 12, q1);
    lemma_enc_int_prefix_unique(v.created_at, c, b.skip(12));
    let c1 = enc_int(v.created_at).len() as int;
    assert(q1 == 12 + c1);
    lemma_subrange_prefix(b, q1 + 14, q3);
    lemma_enc_int_prefix_unique(v.last_modified, lm, b.skip(26 + c1));
    let c2 = enc_int(v.last_modified).len() as int;
    assert(q3 == q1 + 14 + c2);
    lemma_subrange_prefix(b, q3 + 8, q5);
    assert(enc_head(4, count).is_prefix_of(b.skip(34 + c1 + c2)));
    lemma_enc_head_prefix_unique(4, v.entries.len() as u64, 4, count, b.skip(34 + c1 + c2));
    assert(v.entries.len() as u64 == count);
    assert(v.entries.len() == count);
    assert(q5 == 34 + c1 + c2 + enc_head(4, count).len());
}

proof fn lemma_vault_fail_start(b: Seq<u8>)
    requires
        !(seq![0xA3u8] + key_created_at()).is_prefix_of(b),
    ensures
        forall|v: VaultModel| vault_encodable(v) ==> b != #[trigger] spec_encode_vault(v),
{
    assert forall|v: VaultModel| vault_encodable(v) implies b != #[trigger] spec_encode_vault(
        v,
    ) by {
        if b == spec_encode_vault(v) {
            assert(spec_encode_vault(v).is_prefix_of(b));
            lemma_vault_components(v, b);
        }
    }
}

proof fn lemma_vault_fail_created(b: Seq<u8>)
    requires
        forall|w: i64| !(#[trigger] enc_int(w)).is_prefix_of(b.skip(12)),
    ensures
        forall|v: VaultModel| vault_encodable(v) ==> b != #[trigger] spec_encode_vault(v),
{
    assert forall|v: VaultModel| vault_encodable(v) implies b != #[trigger] spec_encode_vault(
        v,
    ) by {
        if b == spec_encode_vault(v) {
            assert(spec_encode_vault(v).is_prefix_of(b));
            lemma_vault_components(v, b);
        }
    }
}

proof fn lemma_vault_fail_key_lm(b: Seq<u8>, q1: int, c: i64)
    requires
        12 <= q1 <= b.len(),
        b.subrange(12, q1) == enc_int(c),
        !key_last_modified().is_prefix_of(b.skip(q1)),
    ensures
        forall|v: VaultModel| vault_encodable(v) ==> b != #[trigger] spec_encode_vault(v),
{
    assert forall|v: VaultModel| vault_encodable(v) implies b != #[trigger] spec_encode_vault(
        v,
    ) by {
        if b == spec_encode_vault(v) {
            assert(spec_encode_vault(v).is_prefix_of(b));
            lemma_vault_components(v, b);
            lemma_subrange_prefix(b, 12, q1);
            lemma_enc_int_prefix_unique(v.created_at, c, b.skip(12));
        }
    }
}

proof fn lemma_vault_fail_lm(b: Seq<u8>, q1: int, c: i64)
    requires
        12 <= q1,
        q1 + 14 <= b.len(),
        b.subrange(12, q1) == enc_int(c),
        b.subrange(q1, q1 + 14) == key_last_modified(),
        forall|w: i64| !(#[trigger] enc_int(w)).is_prefix_of(b.skip(q1 + 14)),
    ensures
        forall|v: VaultModel| vault_encodable(v) ==> b != #[trigger] spec_encode_vault(v),
{
    assert forall|v: VaultModel| vault_encodable(v) implies b != #[trigger] spec_encode_vault(
        v,
    ) by {
        if b == spec_encode_vault(v) {
            assert(spec_encode_vault(v).is_prefix_of(b));
            lemma_vault_components(v, b);
            lemma_subrange_prefix(b, 12, q1);
            lemma_enc_int_prefix_unique(v.created_at, c, b.skip(12));
            assert(enc_int(v.last_modified).is_prefix_of(b.skip(q1 + 14)));
        }
    }
}

proof fn lemma_vault_fail_key_entries(b: Seq<u8>, q1: int, q3: int, c: i64, lm: i64)
    requires
        12 <= q1,
        q1 + 14 <= q3 <= b.len(),
        b.subrange(12, q1) == enc_int(c),
        b.subrange(q1, q1 + 14) == key_last_modified(),
        b.subrange(q1 + 14, q3) == enc_int(lm),
        !key_entries().is_prefix_of(b.skip(q3)),
    ensures
        forall|v: VaultModel| vault_encodable(v) ==> b != #[trigger] spec_encode_vault(v),
{
    assert forall|v: VaultModel| vault_encodable(v) implies b != #[trigger] spec_encode_vault(
        v,
    ) by {
        if b == spec_encode_vault(v) {
            assert(spec_encode_vault(v).is_prefix_of(b));
            lemma_vault_components(v, b);
            lemma_subrange_prefix(b, 12, q1);
            lemma_enc_int_prefix_unique(v.created_at, c, b.skip(12));
            lemma_subrange_prefix(b, q1 + 14, q3);
            lemma_enc_int_prefix_unique(v.last_modified, lm, b.skip(q1 + 14));
        }
    }
}

proof fn lemma_vault_fail_head(b: Seq<u8>, q1: int, q3: int, c: i64, lm: i64)
    requires
        12 <= q1,
        q1 + 14 <= q3,
        q3 + 8 <= b.len(),
        b.subrange(12, q1) == enc_int(c),
        b.subrange(q1, q1 + 14) == key_last_modified(),
        b.subrange(q1 + 14, q3) == enc_int(lm),
        b.subrange(q3, q3 + 8) == key_entries(),
        forall|a: u64| !(#[trigger] enc_head(4, a)).is_prefix_of(b.skip(q3 + 8)),
    ensures
        forall|v: VaultModel| vault_encodable(v) ==> b != #[trigger] spec_encode_vault(v),
{
    assert forall|v: VaultModel| vault_encodable(v) implies b != #[trigger] spec_encode_vault(
        v,
    ) by {
        if b == spec_encode_vault(v) {
            assert(spec_encode_vault(v).is_prefix_of(b));
            lemma_vault_components(v, b);
            lemma_subrange_prefix(b, 12, q1);
            lemma_enc_int_prefix_unique(v.created_at, c, b.skip(12));
            lemma_subrange_prefix(b, q1 + 14, q3);
            lemma_enc_int_prefix_unique(v.last_modified, lm, b.skip(q1 + 14));
            assert(enc_head(4, v.entries.len() as u64).is_prefix_of(b.skip(q3 + 8)));
        }
    }
}

proof fn lemma_enc_entries_push(s: Seq<EntryModel>, e: EntryModel)
    ensures
        enc_entries(s.push(e)) == enc_entries(s) + enc_entry(e),
{
    let t = s.push(e);
    lemma_enc_entries_snoc(t, s.len() as int);
    assert(t.take(s.len() as int) =~= s);
    assert(t.take(s.len() + 1 as int) =~= t);
    assert(t[s.len() as int] == e);
}

fn vec_vault_start() -> (r: Vec<u8>)
    ensures
        r@ == seq![0xA3u8] + key_created_at(),
{
    let mut v: Vec<u8> = Vec::new();
    v.push(0xA3);
    v.push(0x6A);
    v.push(0x63);
    v.push(0x72);
    v.push(0x65);
    v.push(0x61);
    v.push(0x74);
    v.push(0x65);
    v.push(0x64);
    v.push(0x5F);
    v.push(0x61);
    v.push(0x74);
    proof {
        assert(v@ =~= seq![0xA3u8] + key_created_at());
    }
    v
}

/// The greatest id among the entries, 0 when there are none.
pub open spec fn max_id(s: Seq<EntryModel>) -> u32
    decreases s.len(),
{
    if s.len() == 0 {
        0
    } else {
        let m = max_id(s.drop_last());
        if s.last().id > m {
            s.last().id
        } else {
            m
        }
    }
}

proof fn lemma_max_id_bounds(s: Seq<EntryModel>)
    ensures
        forall|i: int| 0 <= i < s.len() ==> (#[trigger] s[i]).id <= max_id(s),
    decreases s.len(),
{
    if s.len() > 0 {
        lemma_max_id_bounds(s.drop_last());
        assert forall|i: int| 0 <= i < s.len() implies (#[trigger] s[i]).id <= max_id(s) by {
            if i < s.len() - 1 {
                assert(s[i] == s.drop_last()[i]);
                assert(s.drop_last()[i].id <= max_id(s.drop_last()));
            }
        }
    }
}

proof fn lemma_enc_entries_injective(s1: Seq<EntryModel>, s2: Seq<EntryModel>)
    requires
        forall|i: int| 0 <= i < s1.len() ==> entry_encodable(#[trigger] s1[i]),
        forall|i: int| 0 <= i < s2.len() ==> entry_encodable(#[trigger] s2[i]),
        s1.len() == s2.len(),
        enc_entries(s1) == enc_entries(s2),
    ensures
        s1 == s2,
    decreases s1.len(),
{
    if s1.len() == 0 {
        assert(s1 =~= s2);
    } else {
        let b = enc_entries(s1);
        assert(b == enc_entry(s1[0]) + enc_entries(s1.drop_first()));
        assert(b == enc_entry(s2[0]) + enc_entries(s2.drop_first()));
        assert(enc_entry(s1[0]).is_prefix_of(b)) by {
            assert(enc_entry(s1[0]) =~= b.subrange(0, enc_entry(s1[0]).len() as int));
        }
        assert(enc_entry(s2[0]).is_prefix_of(b)) by {
            assert(enc_entry(s2[0]) =~= b.subrange(0, enc_entry(s2[0]).len() as int));
        }
        assert(b.skip(0) =~= b);
        lemma_enc_entry_prefix_unique(s1[0], s2[0], b);
        assert(enc_entries(s1.drop_first()) =~= enc_entries(s2.drop_first())) by {
            let el = enc_entry(s1[0]).len() as int;
            assert(enc_entries(s1.drop_first()) =~= b.skip(el));
            assert(enc_entries(s2.drop_first()) =~= b.skip(el));
        }
        assert(forall|i: int|
            0 <= i < s1.drop_first().len() ==> entry_encodable(#[trigger] s1.drop_first()[i]));
        assert(forall|i: int|
            0 <= i < s2.drop_first().len() ==> entry_encodable(#[trigger] s2.drop_first()[i]));
        lemma_enc_entries_injective(s1.drop_first(), s2.drop_first());
        assert(s1.drop_first() == s2.drop_first());
        assert forall|i: int| 0 <= i < s1.len() implies s1[i] == s2[i] by {
            if i > 0 {
                assert(s1[i] == s1.drop_first()[i - 1]);
                assert(s2[i] == s2.drop_first()[i - 1]);
            }
        }
        assert(s1 =~= s2);
    }
}

/// The canonical encoding is injective: two vaults with the same payload
/// agree on everything the payload persists — both timestamps and the whole
/// entry list. (The in-memory id watermark is not persisted.)
pub proof fn lemma_encode_vault_injective(v1: VaultModel, v2: VaultModel)
    requires
        vault_encodable(v1),
        vault_encodable(v2),
        spec_encode_vault(v1) == spec_encode_vault(v2),
    ensures
        v1.created_at == v2.created_at,
        v1.last_modified == v2.last_modified,
        v1.entries == v2.entries,
{
    let b = spec_encode_vault(v1);
    assert(spec_encode_vault(v1).is_prefix_of(b));
    assert(spec_encode_vault(v2).is_prefix_of(b));
    lemma_vault_components(v1, b);
    lemma_vault_components(v2, b);
    lemma_enc_int_prefix_unique(v1.created_at, v2.created_at, b.skip(12));
    let c1 = enc_int(v1.created_at).len() as int;
    lemma_enc_int_prefix_unique(v1.last_modified, v2.last_modified, b.skip(26 + c1));
    let c2 = enc_int(v1.last_modified).len() as int;
    lemma_enc_head_prefix_unique(
        4,
        v1.entries.len() as u64,
        4,
        v2.entries.len() as u64,
        b.skip(34 + c1 + c2),
    );
    assert(v1.entries.len() == v2.entries.len());
    let hl = enc_head(4, v1.entries.len() as u64).len() as int;
    let q = 34 + c1 + c2 + hl;
    assert(enc_entries(v1.entries) =~= b.skip(q)) by {
        assert(enc_entries(v1.entries).len() == b.len() - q);
    }
    assert(enc_entries(v2.entries) =~= b.skip(q)) by {
        assert(enc_entries(v2.entries).len() == b.len() - q);
    }
    lemma_enc_entries_injective(v1.entries, v2.entries);
}

/// Deserializes a vault payload, returning the vault whose canonical
/// encoding is exactly the payload, and a format error for every other byte
/// sequence.
#[verifier::rlimit(100)]
pub fn decode_vault(payload: &[u8]) -> (r: Result<VaultV1, VaultError>)
    ensures
        match r {
            Ok(v) => payload@ == spec_encode_vault(v@) && vault_encodable(v@) && v@.next_id
                == max_id(v@.entries) as u64 + 1 && crate::model::ids_below_watermark(v@),
            Err(e) => e == VaultError::FormatError && forall|v: VaultModel|
                vault_encodable(v) ==> payload@ != #[trigger] spec_encode_vault(v),
        },
{
    let n = payload.len();
    let start = vec_vault_start();
    let q0 = match expect_bytes(payload, 0, start.as_slice()) {
        Some(p) => p,
        None => {
            proof {
                assert(payload@.skip(0) =~= payload@);
                lemma_vault_fail_start(payload@);
            }
            return Err(VaultError::FormatError);
        },
    };
    let (c, q1) = match read_i64(payload, q0) {
        Some(t) => t,
        None => {
            proof {
                lemma_vault_fail_created(payload@);
            }
            return Err(VaultError::FormatError);
        },
    };
    let klm = vec_key_last_modified();
    let q2 = match expect_bytes(payload, q1, klm.as_slice()) {
        Some(p) => p,
        None => {
            proof {
                lemma_vault_fail_key_lm(payload@, q1 as int, c);
            }
            return Err(VaultError::FormatError);
        },
    };
    let (lm, q3) = match read_i64(payload, q2) {
        Some(t) => t,
        None => {
            proof {
                lemma_vault_fail_lm(payload@, q1 as int, c);
            }
            return Err(VaultError::FormatError);
        },
    };
    let kent = vec_key_entries();
    let q4 = match expect_bytes(payload, q3, kent.as_slice()) {
        Some(p) => p,
        None => {
            proof {
                lemma_vault_fail_key_entries(payload@, q1 as int, q3 as int, c, lm);
            }
            return Err(VaultError::FormatError);
        },
    };
    let (count, q5) = match read_head(payload, q4) {
        Some((m, a, p)) => {
            if m == 4 {
                (a, p)
            } else {
                proof {
                    assert(enc_head(m, a).is_prefix_of(payload@.skip(q4 as int))) by {
                        assert(enc_head(m, a) =~= payload@.skip(q4 as int).subrange(
                            0,
                            enc_head(m, a).len() as int,
                        ));
                    }
                    assert forall|a2: u64| !(#[trigger] enc_head(4, a2)).is_prefix_of(
                        payload@.skip(q4 as int),
                    ) by {
                        if enc_head(4, a2).is_prefix_of(payload@.skip(q4 as int)) {
                            lemma_enc_head_prefix_unique(4, a2, m, a, payload@.skip(q4 as int));
                        }
                    }
                    lemma_vault_fail_head(payload@, q1 as int, q3 as int, c, lm);
                }
                return Err(VaultError::FormatError);
            }
        },
        None => {
            proof {
                assert forall|a2: u64| !(#[trigger] enc_head(4, a2)).is_prefix_of(
                    payload@.skip(q4 as int),
                ) by {}
                lemma_vault_fail_head(payload@, q1 as int, q3 as int, c, lm);
            }
            return Err(VaultError::FormatError);
        },
    };
    let ghost hdr = payload@.subrange(0, q5 as int);
    let mut entries: Vec<Entry> = Vec::new();
    let mut maxv: u32 = 0;
    let mut pos: usize = q5;
    let mut i: u64 = 0;
    proof {
        assert(payload@.subrange(q5 as int, pos as int) =~= enc_entries(
            entries@.map_values(|e: Entry| e@),
        ));
        assert(entries@.map_values(|e: Entry| e@) =~= Seq::<EntryModel>::empty());
        assert forall|v: VaultModel|
            vault_encodable(v) && payload@ == #[trigger] spec_encode_vault(v) implies {
            &&& v.created_at == c
            &&& v.last_modified == lm
            &&& v.entries.len() == count
            &&& v.entries.take(0) =~= entries@.map_values(|e: Entry| e@)
            &&& payload@.skip(q5 as int) == enc_entries(v.entries.skip(0))
        } by {
            assert(spec_encode_vault(v).is_prefix_of(payload@));
            lemma_vault_sync(v, payload@, q1 as int, q3 as int, q5 as int, c, lm, count);
            assert(v.entries.skip(0) =~= v.entries);
            assert(enc_entries(v.entries).len() == payload@.len() - q5);
            assert(enc_entries(v.entries) =~= payload@.skip(q5 as int));
        }
    }
    while i < count
        invariant
            q5 <= pos <= n,
            n == payload@.len(),
            i <= count,
            entries@.len() == i,
            maxv == max_id(entries@.map_values(|e: Entry| e@)),
            payload@.subrange(q5 as int, pos as int) == enc_entries(entries@.map_values(|e: Entry| e@)),
            forall|j: int| 0 <= j < entries@.len() ==> entry_encodable((#[trigger] entries@[j])@),
            forall|v: VaultModel|
                vault_encodable(v) && payload@ == #[trigger] spec_encode_vault(v) ==> {
                    &&& v.created_at == c
                    &&& v.last_modified == lm
                    &&& v.entries.len() == count
                    &&& v.entries.take(i as int) == entries@.map_values(|e: Entry| e@)
                    &&& payload@.skip(pos as int) == enc_entries(v.entries.skip(i as int))
                },
        decreases count - i,
    {
        let ghost models = entries@.map_values(|e: Entry| e@);
        match read_entry(payload, pos) {
            Some((e, p)) => {
                proof {
                    lemma_subrange_chain(payload@, q5 as int, pos as int, p as int);
                    lemma_enc_entries_push(models, e@);
                    assert(entries@.push(e).map_values(|x: Entry| x@) =~= models.push(e@));
                    assert forall|v: VaultModel|
                        vault_encodable(v) && payload@ == #[trigger] spec_encode_vault(v) implies {
                        &&& v.entries.take(i + 1) == models.push(e@)
                        &&& payload@.skip(p as int) == enc_entries(v.entries.skip(i + 1))
                    } by {
                        assert(v.entries.len() == count);
                        assert(i < count);
                        let rest = v.entries.skip(i as int);
                        assert(rest.len() > 0);
                        assert(enc_entries(rest) == enc_entry(rest[0]) + enc_entries(
                            rest.drop_first(),
                        ));
                        assert(rest[0] == v.entries[i as int]);
                        assert(enc_entry(v.entries[i as int]).is_prefix_of(payload@.skip(pos as int)))
                            by {
                            assert(enc_entry(rest[0]) =~= (enc_entry(rest[0]) + enc_entries(
                                rest.drop_first(),
                            )).subrange(0, enc_entry(rest[0]).len() as int));
                        }
                        lemma_subrange_prefix(payload@, pos as int, p as int);
                        lemma_enc_entry_prefix_unique(
                            v.entries[i as int],
                            e@,
                            payload@.skip(pos as int),
                        );
                        assert(v.entries.take(i + 1) =~= v.entries.take(i as int).push(
                            v.entries[i as int],
                        ));
                        let el = enc_entry(e@).len() as int;
                        assert(payload@.skip(pos as int).skip(el) =~= payload@.skip(p as int));
                        assert(payload@.skip(pos as int).skip(el) =~= enc_entries(rest.drop_first()));
                        assert(rest.drop_first() =~= v.entries.skip(i + 1));
                    }
                }
                proof {
                    let ghost ms = entries@.map_values(|x: Entry| x@);
                    assert(ms.push(e@).drop_last() =~= ms);
                    assert(ms.push(e@).last() == e@);
                }
                if e.id > maxv {
                    maxv = e.id;
                }
                entries.push(e);
                pos = p;
                i = i + 1;
            },
            None => {
                proof {
                    assert forall|v: VaultModel|
                        vault_encodable(v) implies payload@ != #[trigger] spec_encode_vault(v) by {
                        if payload@ == spec_encode_vault(v) {
                            let rest = v.entries.skip(i as int);
                            assert(v.entries.len() == count && i < count);
                            assert(rest.len() > 0);
                            assert(rest[0] == v.entries[i as int]);
                            assert(enc_entries(rest) == enc_entry(rest[0]) + enc_entries(
                                rest.drop_first(),
                            ));
                            assert(enc_entry(rest[0]).is_prefix_of(payload@.skip(pos as int))) by {
                                assert(enc_entry(rest[0]) =~= (enc_entry(rest[0]) + enc_entries(
                                    rest.drop_first(),
                                )).subrange(0, enc_entry(rest[0]).len() as int));
                            }
                            assert(entry_encodable(rest[0]));
                            assert(!enc_entry(rest[0]).is_prefix_of(payload@.skip(pos as int)));
                            assert(false);
                        }
                    }
                }
                return Err(VaultError::FormatError);
            },
        }
    }
    if pos != n {
        proof {
            assert forall|v: VaultModel| vault_encodable(v) implies payload@
                != #[trigger] spec_encode_vault(v) by {
                if payload@ == spec_encode_vault(v) {
                    assert(v.entries.skip(count as int) =~= Seq::<EntryModel>::empty());
                    assert(enc_entries(v.entries.skip(count as int)).len() == 0);
                    assert(payload@.skip(pos as int).len() == 0);
                }
            }
        }
        return Err(VaultError::FormatError);
    }
    let next_id: u64 = (maxv as u64) + 1;
    let vault = VaultV1 { created_at: c, last_modified: lm, entries, next_id };
    proof {
        let models = vault.entries@.map_values(|e: Entry| e@);
        assert(vault@.entries == models);
        assert(models.len() == count);
        lemma_max_id_bounds(models);
        lemma_subrange_chain(payload@, 0, q0 as int, q1 as int);
        lemma_subrange_chain(payload@, 0, q1 as int, q2 as int);
        lemma_subrange_chain(payload@, 0, q2 as int, q3 as int);
        lemma_subrange_chain(payload@, 0, q3 as int, q4 as int);
        lemma_subrange_chain(payload@, 0, q4 as int, q5 as int);
        lemma_subrange_chain(payload@, 0, q5 as int, pos as int);
        assert(payload@.subrange(0, n as int) =~= payload@);
        assert(payload@ =~= spec_encode_vault(vault@));
    }
    Ok(vault)
}

} // verus!
