//! Operations on the entry list of an unlocked vault: id assignment, name
//! and id lookup, removal and editing.
//!
//! Name lookups are ASCII-case-insensitive and may be ambiguous; they return
//! the first match in insertion order. Name-based removal deletes every
//! match in one call, so callers needing single-entry precision under name
//! collisions use id-based removal. Callers update `last_modified` and
//! persist through the store.

use vstd::prelude::*;
use vstd::utf8::encode_utf8;
use crate::model::{ids_below_watermark, ids_unique, Entry, EntryModel, VaultV1};

verus! {

/// ASCII lowercasing of one byte.
pub open spec fn lower_byte(b: u8) -> u8 {
    if 65 <= b && b <= 90 {
        (b + 32) as u8
    } else {
        b
    }
}

/// Byte-wise ASCII-case-insensitive equality.
pub open spec fn bytes_eq_ignore_case(a: Seq<u8>, b: Seq<u8>) -> bool {
    a.len() == b.len() && forall|i: int|
        0 <= i < a.len() ==> lower_byte(#[trigger] a[i]) == lower_byte(b[i])
}

/// ASCII-case-insensitive equality of two strings, byte for byte on their
/// UTF-8 forms — exactly the comparison the lookups use.
pub open spec fn name_matches(a: Seq<char>, b: Seq<char>) -> bool {
    bytes_eq_ignore_case(encode_utf8(a), encode_utf8(b))
}

/// The index of the first entry whose name matches, or -1 when none does.
pub open spec fn first_match(entries: Seq<EntryModel>, name: Seq<char>) -> int
    decreases entries.len(),
{
    if entries.len() == 0 {
        -1
    } else if name_matches(entries[0].name, name) {
        0
    } else {
        let r = first_match(entries.drop_first(), name);
        if r == -1 {
            -1
        } else {
            r + 1
        }
    }
}

/// The index of the first entry with this id, or -1 when none has it.
pub open spec fn first_match_id(entries: Seq<EntryModel>, id: u32) -> int
    decreases entries.len(),
{
    if entries.len() == 0 {
        -1
    } else if entries[0].id == id {
        0
    } else {
        let r = first_match_id(entries.drop_first(), id);
        if r == -1 {
            -1
        } else {
            r + 1
        }
    }
}

/// What `first_match` returns: -1 exactly when nothing matches, otherwise
/// the position of a match that no earlier position shares.
pub proof fn lemma_first_match(entries: Seq<EntryModel>, name: Seq<char>)
    ensures
        ({
            let fm = first_match(entries, name);
            &&& (fm == -1 || (0 <= fm < entries.len()))
            &&& (fm == -1 ==> forall|i: int|
                0 <= i < entries.len() ==> !name_matches((#[trigger] entries[i]).name, name))
            &&& (fm >= 0 ==> fm < entries.len() && name_matches(entries[fm].name, name) && (
            forall|i: int| 0 <= i < fm ==> !name_matches((#[trigger] entries[i]).name, name)))
        }),
    decreases entries.len(),
{
    if entries.len() == 0 {
    } else if name_matches(entries[0].name, name) {
    } else {
        let d = entries.drop_first();
        lemma_first_match(d, name);
        let r = first_match(d, name);
        let fm = first_match(entries, name);
        if r == -1 {
            assert(fm == -1);
            assert forall|i: int| 0 <= i < entries.len() implies !name_matches(
                (#[trigger] entries[i]).name,
                name,
            ) by {
                if i > 0 {
                    assert(entries[i] == d[i - 1]);
                    assert(!name_matches(d[i - 1].name, name));
                }
            }
        } else {
            assert(fm == r + 1);
            assert(0 <= r < d.len());
            assert(name_matches(d[r].name, name));
            assert(d[r] == entries[r + 1]);
            assert(entries[fm] == d[r]);
            assert forall|i: int| 0 <= i < fm implies !name_matches(
                (#[trigger] entries[i]).name,
                name,
            ) by {
                if i > 0 {
                    assert(entries[i] == d[i - 1]);
                    assert(!name_matches(d[i - 1].name, name));
                }
            }
        }
    }
}

/// What `first_match_id` returns, in the same shape.
pub proof fn lemma_first_match_id(entries: Seq<EntryModel>, id: u32)
    ensures
        ({
            let fm = first_match_id(entries, id);
            &&& (fm == -1 || (0 <= fm < entries.len()))
            &&& (fm == -1 ==> forall|i: int|
                0 <= i < entries.len() ==> (#[trigger] entries[i]).id != id)
            &&& (fm >= 0 ==> fm < entries.len() && entries[fm].id == id && (forall|i: int|
                0 <= i < fm ==> (#[trigger] entries[i]).id != id))
        }),
    decreases entries.len(),
{
    if entries.len() == 0 {
    } else if entries[0].id == id {
    } else {
        let d = entries.drop_first();
        lemma_first_match_id(d, id);
        let r = first_match_id(d, id);
        let fm = first_match_id(entries, id);
        if r == -1 {
            assert(fm == -1);
            assert forall|i: int| 0 <= i < entries.len() implies (#[trigger] entries[i]).id
                != id by {
                if i > 0 {
                    assert(entries[i] == d[i - 1]);
                    assert(d[i - 1].id != id);
                }
            }
        } else {
            assert(fm == r + 1);
            assert(0 <= r < d.len());
            assert(d[r].id == id);
            assert(d[r] == entries[r + 1]);
            assert(entries[fm] == d[r]);
            assert forall|i: int| 0 <= i < fm implies (#[trigger] entries[i]).id != id by {
                if i > 0 {
                    assert(entries[i] == d[i - 1]);
                    assert(d[i - 1].id != id);
                }
            }
        }
    }
}

/// A match at `i` with no match before it is the first match.
proof fn lemma_first_match_at(entries: Seq<EntryModel>, name: Seq<char>, i: int)
    requires
        0 <= i < entries.len(),
        name_matches(entries[i].name, name),
        forall|j: int| 0 <= j < i ==> !name_matches((#[trigger] entries[j]).name, name),
    ensures
        first_match(entries, name) == i,
{
    lemma_first_match(entries, name);
    let fm = first_match(entries, name);
    if fm == -1 {
        assert(!name_matches((entries[i]).name, name));
    } else if fm < i {
        assert(!name_matches((entries[fm]).name, name));
        assert(name_matches((entries[fm]).name, name));
    } else if fm > i {
        assert(!name_matches((entries[i]).name, name));
    }
}

/// The id found at `i`, with no earlier occurrence, is the first match.
proof fn lemma_first_match_id_at(entries: Seq<EntryModel>, id: u32, i: int)
    requires
        0 <= i < entries.len(),
        entries[i].id == id,
        forall|j: int| 0 <= j < i ==> (#[trigger] entries[j]).id != id,
    ensures
        first_match_id(entries, id) == i,
{
    lemma_first_match_id(entries, id);
    let fm = first_match_id(entries, id);
    if fm == -1 {
        assert((entries[i]).id != id);
    } else if fm < i {
        assert((entries[fm]).id != id);
        assert((entries[fm]).id == id);
    } else if fm > i {
        assert((entries[i]).id != id);
    }
}

fn lower_u8(b: u8) -> (r: u8)
    ensures
        r == lower_byte(b),
{
    if 65 <= b && b <= 90 {
        b + 32
    } else {
        b
    }
}

/// ASCII-case-insensitive string equality.
pub fn eq_ignore_case(a: &str, b: &str) -> (r: bool)
    ensures
        r == name_matches(a@, b@),
{
    let ab = a.as_bytes();
    let bb = b.as_bytes();
    let n = ab.len();
    if n != bb.len() {
        return false;
    }
    let mut i: usize = 0;
    while i < n
        invariant
            i <= n,
            n == ab@.len() == bb@.len(),
            ab@ == encode_utf8(a@),
            bb@ == encode_utf8(b@),
            forall|j: int| 0 <= j < i ==> lower_byte(#[trigger] ab@[j]) == lower_byte(bb@[j]),
        decreases n - i,
    {
        if lower_u8(ab[i]) != lower_u8(bb[i]) {
            return false;
        }
        i = i + 1;
    }
    true
}

/// A deep copy of one entry.
pub fn clone_entry(e: &Entry) -> (r: Entry)
    ensures
        r@ == e@,
{
    Entry {
        id: e.id,
        name: e.name.clone(),
        username: e.username.clone(),
        password: e.password.clone(),
        notes: match &e.notes {
            Some(s) => Some(s.clone()),
            None => None,
        },
    }
}

/// The first entry whose name matches, case-insensitively, in insertion
/// order; nothing when no entry matches.
pub fn find_entry<'a>(vault: &'a VaultV1, name: &str) -> (r: Option<&'a Entry>)
    ensures
        ({
            let fm = first_match(vault@.entries, name@);
            match r {
                Some(e) => fm >= 0 && e@ == vault@.entries[fm],
                None => fm == -1,
            }
        }),
{
    let n = vault.entries.len();
    let mut i: usize = 0;
    while i < n
        invariant
            i <= n,
            n == vault.entries@.len(),
            forall|j: int|
                0 <= j < i ==> !name_matches((#[trigger] vault@.entries[j]).name, name@),
        decreases n - i,
    {
        if eq_ignore_case(vault.entries[i].name.as_str(), name) {
            proof {
                assert(vault@.entries[i as int] == vault.entries@[i as int]@);
                lemma_first_match_at(vault@.entries, name@, i as int);
            }
            return Some(&vault.entries[i]);
        }
        i = i + 1;
    }
    proof {
        lemma_first_match(vault@.entries, name@);
    }
    None
}

/// The first entry with this id; nothing when no entry has it.
pub fn find_entry_by_id<'a>(vault: &'a VaultV1, id: u32) -> (r: Option<&'a Entry>)
    ensures
        ({
            let fm = first_match_id(vault@.entries, id);
            match r {
                Some(e) => fm >= 0 && e@ == vault@.entries[fm],
                None => fm == -1,
            }
        }),
{
    let n = vault.entries.len();
    let mut i: usize = 0;
    while i < n
        invariant
            i <= n,
            n == vault.entries@.len(),
            forall|j: int| 0 <= j < i ==> (#[trigger] vault@.entries[j]).id != id,
        decreases n - i,
    {
        if vault.entries[i].id == id {
            proof {
                assert(vault@.entries[i as int] == vault.entries@[i as int]@);
                lemma_first_match_id_at(vault@.entries, id, i as int);
            }
            return Some(&vault.entries[i]);
        }
        i = i + 1;
    }
    proof {
        lemma_first_match_id(vault@.entries, id);
    }
    None
}

/// Keeps the entries whose name does not match, case-insensitively.
pub open spec fn keeps_name(name: Seq<char>) -> spec_fn(EntryModel) -> bool {
    |e: EntryModel| !name_matches(e.name, name)
}

/// Keeps the entries whose id differs.
pub open spec fn keeps_id(id: u32) -> spec_fn(EntryModel) -> bool {
    |e: EntryModel| e.id != id
}

/// Every element of a filtered entry list is an element of the original.
proof fn lemma_filter_elements(s: Seq<EntryModel>, p: spec_fn(EntryModel) -> bool)
    ensures
        forall|k: int|
            0 <= k < s.filter(p).len() ==> exists|j: int|
                0 <= j < s.len() && #[trigger] s.filter(p)[k] == s[j],
    decreases s.len(),
{
    reveal(Seq::filter);
    if s.len() > 0 {
        let d = s.drop_last();
        let l = s.last();
        lemma_filter_elements(d, p);
        let fd = d.filter(p);
        assert forall|k: int| 0 <= k < s.filter(p).len() implies exists|j: int|
            0 <= j < s.len() && #[trigger] s.filter(p)[k] == s[j] by {
            if k < fd.len() {
                assert(s.filter(p)[k] == fd[k]);
                let j = choose|j: int| 0 <= j < d.len() && fd[k] == d[j];
                assert(s.filter(p)[k] == s[j]);
            } else {
                assert(s.filter(p)[k] == l);
                assert(s.filter(p)[k] == s[s.len() - 1]);
            }
        }
    }
}

/// Filtering an entry list preserves id uniqueness, and every id left in
/// the result was present before.
proof fn lemma_ids_unique_filter(s: Seq<EntryModel>, p: spec_fn(EntryModel) -> bool)
    requires
        ids_unique(s),
    ensures
        ids_unique(s.filter(p)),
        forall|k: int|
            0 <= k < s.filter(p).len() ==> exists|j: int|
                0 <= j < s.len() && s[j].id == (#[trigger] s.filter(p)[k]).id,
    decreases s.len(),
{
    reveal(Seq::filter);
    if s.len() == 0 {
    } else {
        let d = s.drop_last();
        let l = s.last();
        assert(ids_unique(d)) by {
            assert forall|i: int, j: int|
                0 <= i < d.len() && 0 <= j < d.len() && i != j implies d[i].id != d[j].id by {
                assert(d[i] == s[i]);
                assert(d[j] == s[j]);
            }
        }
        lemma_ids_unique_filter(d, p);
        let fd = d.filter(p);
        if p(l) {
            assert(s.filter(p) == fd.push(l));
            assert forall|k: int| 0 <= k < fd.len() implies fd[k].id != l.id by {
                let j = choose|j: int| 0 <= j < d.len() && d[j].id == fd[k].id;
                assert(d[j] == s[j]);
                assert(s[j].id != s[s.len() - 1].id);
            }
            assert(ids_unique(fd.push(l))) by {
                assert forall|i: int, j: int|
                    0 <= i < fd.push(l).len() && 0 <= j < fd.push(l).len() && i != j implies fd.push(
                    l,
                )[i].id != fd.push(l)[j].id by {
                    if i < fd.len() && j < fd.len() {
                        assert(fd.push(l)[i] == fd[i]);
                        assert(fd.push(l)[j] == fd[j]);
                    } else if i < fd.len() {
                        assert(fd.push(l)[i] == fd[i]);
                        assert(fd.push(l)[j] == l);
                    } else {
                        assert(fd.push(l)[i] == l);
                        assert(fd.push(l)[j] == fd[j]);
                    }
                }
            }
            assert forall|k: int| 0 <= k < s.filter(p).len() implies exists|j: int|
                0 <= j < s.len() && s[j].id == (#[trigger] s.filter(p)[k]).id by {
                if k < fd.len() {
                    assert(s.filter(p)[k] == fd[k]);
                    let j = choose|j: int| 0 <= j < d.len() && d[j].id == fd[k].id;
                    assert(d[j] == s[j]);
                    assert(s[j].id == s.filter(p)[k].id);
                } else {
                    assert(s.filter(p)[k] == l);
                    assert(s[s.len() - 1].id == s.filter(p)[k].id);
                }
            }
        } else {
            assert(s.filter(p) == fd);
            assert forall|k: int| 0 <= k < s.filter(p).len() implies exists|j: int|
                0 <= j < s.len() && s[j].id == (#[trigger] s.filter(p)[k]).id by {
                let j = choose|j: int| 0 <= j < d.len() && d[j].id == fd[k].id;
                assert(d[j] == s[j]);
                assert(s[j].id == s.filter(p)[k].id);
            }
        }
    }
}

/// With unique ids, removing by id removes exactly the one entry that bears
/// the id, and nothing when no entry does.
proof fn lemma_remove_id_count(s: Seq<EntryModel>, id: u32)
    requires
        ids_unique(s),
    ensures
        (exists|i: int| 0 <= i < s.len() && (#[trigger] s[i]).id == id) ==> s.filter(
            keeps_id(id),
        ).len() == s.len() - 1,
        !(exists|i: int| 0 <= i < s.len() && (#[trigger] s[i]).id == id) ==> s.filter(keeps_id(id))
            == s,
    decreases s.len(),
{
    reveal(Seq::filter);
    let p = keeps_id(id);
    if s.len() == 0 {
        assert(s.filter(p) =~= s);
    } else {
        let d = s.drop_last();
        let l = s.last();
        assert(ids_unique(d)) by {
            assert forall|i: int, j: int|
                0 <= i < d.len() && 0 <= j < d.len() && i != j implies d[i].id != d[j].id by {
                assert(d[i] == s[i]);
                assert(d[j] == s[j]);
            }
        }
        lemma_remove_id_count(d, id);
        if l.id == id {
            assert(s.filter(p) == d.filter(p));
            assert(!(exists|i: int| 0 <= i < d.len() && (#[trigger] d[i]).id == id)) by {
                if exists|i: int| 0 <= i < d.len() && (#[trigger] d[i]).id == id {
                    let i = choose|i: int| 0 <= i < d.len() && (#[trigger] d[i]).id == id;
                    assert(d[i] == s[i]);
                    assert(s[i].id != s[s.len() - 1].id);
                }
            }
            assert(d.filter(p) == d);
            assert(s[s.len() - 1].id == id);
        } else {
            assert(s.filter(p) == d.filter(p).push(l));
            if exists|i: int| 0 <= i < s.len() && (#[trigger] s[i]).id == id {
                let i = choose|i: int| 0 <= i < s.len() && (#[trigger] s[i]).id == id;
                assert(i < d.len() && d[i] == s[i]);
                assert(exists|i2: int| 0 <= i2 < d.len() && (#[trigger] d[i2]).id == id);
                assert(d.filter(p).len() == d.len() - 1);
            } else {
                assert(!(exists|i: int| 0 <= i < d.len() && (#[trigger] d[i]).id == id)) by {
                    if exists|i: int| 0 <= i < d.len() && (#[trigger] d[i]).id == id {
                        let i = choose|i: int| 0 <= i < d.len() && (#[trigger] d[i]).id == id;
                        assert(d[i] == s[i]);
                    }
                }
                assert(d.filter(p) == d);
                assert(d.push(l) =~= s);
            }
        }
    }
}

/// Adds a new entry: it receives the watermark id, which is strictly
/// greater than every id ever assigned in this vault's history (1 in a
/// fresh vault), and the watermark advances past it, so an id freed by a
/// deletion is never handed out again. The entry is appended at the end.
/// The caller updates `last_modified` and persists through the store.
pub fn add_entry(
    vault: &mut VaultV1,
    name: String,
    username: String,
    password: String,
    notes: Option<String>,
) -> (id: u32)
    requires
        ids_below_watermark(old(vault)@),
        old(vault)@.next_id <= 0xFFFF_FFFFu64,
    ensures
        id as u64 == old(vault)@.next_id,
        final(vault)@.next_id == old(vault)@.next_id + 1,
        final(vault)@.entries == old(vault)@.entries.push(
            (EntryModel {
                id: id,
                name: name@,
                username: username@,
                password: password@,
                notes: (match notes {
                    Option::Some(s) => Option::Some(s@),
                    Option::None => Option::None,
                }),
            }),
        ),
        forall|i: int|
            0 <= i < old(vault)@.entries.len() ==> (#[trigger] old(vault)@.entries[i]).id < id,
        ids_unique(old(vault)@.entries) ==> ids_unique(final(vault)@.entries),
        ids_below_watermark(final(vault)@),
        final(vault)@.created_at == old(vault)@.created_at,
        final(vault)@.last_modified == old(vault)@.last_modified,
{
    let id = vault.next_id as u32;
    let entry = Entry { id, name, username, password, notes };
    let ghost em = entry@;
    vault.entries.push(entry);
    vault.next_id = vault.next_id + 1;
    proof {
        assert(final(vault)@.entries =~= old(vault)@.entries.push(em));
        let newe = final(vault)@.entries;
        assert forall|i: int|
            0 <= i < old(vault)@.entries.len() implies (#[trigger] old(vault)@.entries[i]).id
            < id by {}
        if ids_unique(old(vault)@.entries) {
            assert forall|a: int, b: int|
                0 <= a < newe.len() && 0 <= b < newe.len() && a != b implies newe[a].id
                != newe[b].id by {
                if a < newe.len() - 1 && b < newe.len() - 1 {
                    assert(newe[a] == old(vault)@.entries[a]);
                    assert(newe[b] == old(vault)@.entries[b]);
                } else if a < newe.len() - 1 {
                    assert(newe[a] == old(vault)@.entries[a]);
                    assert(newe[b] == em);
                } else {
                    assert(newe[a] == em);
                    assert(newe[b] == old(vault)@.entries[b]);
                }
            }
        }
        assert forall|i: int| 0 <= i < newe.len() implies (#[trigger] newe[i]).id < final(vault)@.next_id by {
            if i < newe.len() - 1 {
                assert(newe[i] == old(vault)@.entries[i]);
            } else {
                assert(newe[i] == em);
            }
        }
    }
    id
}

/// Removes every entry whose name matches, case-insensitively, in one call;
/// reports whether any entry was removed. Id uniqueness is preserved.
pub fn remove_entry(vault: &mut VaultV1, name: &str) -> (r: bool)
    ensures
        final(vault)@.entries == old(vault)@.entries.filter(keeps_name(name@)),
        r == (exists|i: int|
            0 <= i < old(vault)@.entries.len() && name_matches(
                (#[trigger] old(vault)@.entries[i]).name,
                name@,
            )),
        ids_unique(old(vault)@.entries) ==> ids_unique(final(vault)@.entries),
        ids_below_watermark(old(vault)@) ==> ids_below_watermark(final(vault)@),
        final(vault)@.next_id == old(vault)@.next_id,
        final(vault)@.created_at == old(vault)@.created_at,
        final(vault)@.last_modified == old(vault)@.last_modified,
{
    let n = vault.entries.len();
    let mut kept: Vec<Entry> = Vec::new();
    let mut removed = false;
    let mut i: usize = 0;
    while i < n
        invariant
            i <= n,
            n == vault.entries@.len(),
            *vault == *old(vault),
            kept@.map_values(|e: Entry| e@) == old(vault)@.entries.take(i as int).filter(
                keeps_name(name@),
            ),
            removed == (exists|j: int|
                0 <= j < i && name_matches((#[trigger] old(vault)@.entries[j]).name, name@)),
        decreases n - i,
    {
        proof {
            reveal(Seq::filter);
            assert(vault@.entries[i as int] == vault.entries@[i as int]@);
            assert(old(vault)@.entries.take(i + 1).drop_last() =~= old(vault)@.entries.take(
                i as int,
            ));
            assert(old(vault)@.entries.take(i + 1).last() == old(vault)@.entries[i as int]);
        }
        if eq_ignore_case(vault.entries[i].name.as_str(), name) {
            removed = true;
        } else {
            let e = clone_entry(&vault.entries[i]);
            kept.push(e);
            proof {
                assert(kept@.map_values(|e2: Entry| e2@) =~= old(vault)@.entries.take(
                    i + 1,
                ).filter(keeps_name(name@)));
            }
        }
        i = i + 1;
    }
    proof {
        assert(old(vault)@.entries.take(n as int) =~= old(vault)@.entries);
    }
    vault.entries = kept;
    proof {
        if ids_unique(old(vault)@.entries) {
            lemma_ids_unique_filter(old(vault)@.entries, keeps_name(name@));
        }
        if ids_below_watermark(old(vault)@) {
            lemma_filter_elements(old(vault)@.entries, keeps_name(name@));
        }
    }
    removed
}

/// How many entries match a name, case-insensitively — what a calling layer
/// consults before confirming an ambiguous name-based deletion.
pub fn count_matching_entries(vault: &VaultV1, name: &str) -> (r: usize)
    ensures
        r == vault@.entries.len() - vault@.entries.filter(keeps_name(name@)).len(),
        r == 0 <==> !(exists|i: int|
            0 <= i < vault@.entries.len() && name_matches(
                (#[trigger] vault@.entries[i]).name,
                name@,
            )),
{
    let n = vault.entries.len();
    let mut count: usize = 0;
    let mut i: usize = 0;
    while i < n
        invariant
            i <= n,
            n == vault.entries@.len(),
            count == i - vault@.entries.take(i as int).filter(keeps_name(name@)).len(),
            count == 0 <==> !(exists|j: int|
                0 <= j < i && name_matches((#[trigger] vault@.entries[j]).name, name@)),
        decreases n - i,
    {
        proof {
            reveal(Seq::filter);
            assert(vault@.entries[i as int] == vault.entries@[i as int]@);
            assert(vault@.entries.take(i + 1).drop_last() =~= vault@.entries.take(i as int));
            assert(vault@.entries.take(i + 1).last() == vault@.entries[i as int]);
            vault@.entries.take(i as int).lemma_filter_len(keeps_name(name@));
        }
        if eq_ignore_case(vault.entries[i].name.as_str(), name) {
            count = count + 1;
        }
        i = i + 1;
    }
    proof {
        assert(vault@.entries.take(n as int) =~= vault@.entries);
        vault@.entries.lemma_filter_len(keeps_name(name@));
    }
    count
}

/// Removes the one entry bearing this id, if present; with unique ids
/// exactly one entry goes. Id uniqueness is preserved.
pub fn remove_entry_by_id(vault: &mut VaultV1, id: u32) -> (r: bool)
    ensures
        final(vault)@.entries == old(vault)@.entries.filter(keeps_id(id)),
        r == (exists|i: int|
            0 <= i < old(vault)@.entries.len() && (#[trigger] old(vault)@.entries[i]).id == id),
        ids_unique(old(vault)@.entries) ==> ids_unique(final(vault)@.entries),
        ids_unique(old(vault)@.entries) && r ==> final(vault)@.entries.len() == old(vault)@.entries.len() - 1,
        ids_unique(old(vault)@.entries) && !r ==> final(vault)@.entries == old(vault)@.entries,
        ids_below_watermark(old(vault)@) ==> ids_below_watermark(final(vault)@),
        final(vault)@.next_id == old(vault)@.next_id,
        final(vault)@.created_at == old(vault)@.created_at,
        final(vault)@.last_modified == old(vault)@.last_modified,
{
    let n = vault.entries.len();
    let mut kept: Vec<Entry> = Vec::new();
    let mut removed = false;
    let mut i: usize = 0;
    while i < n
        invariant
            i <= n,
            n == vault.entries@.len(),
            *vault == *old(vault),
            kept@.map_values(|e: Entry| e@) == old(vault)@.entries.take(i as int).filter(
                keeps_id(id),
            ),
            removed == (exists|j: int|
                0 <= j < i && (#[trigger] old(vault)@.entries[j]).id == id),
        decreases n - i,
    {
        proof {
            reveal(Seq::filter);
            assert(vault@.entries[i as int] == vault.entries@[i as int]@);
            assert(old(vault)@.entries.take(i + 1).drop_last() =~= old(vault)@.entries.take(
                i as int,
            ));
            assert(old(vault)@.entries.take(i + 1).last() == old(vault)@.entries[i as int]);
        }
        if vault.entries[i].id == id {
            removed = true;
        } else {
            let e = clone_entry(&vault.entries[i]);
            kept.push(e);
            proof {
                assert(kept@.map_values(|e2: Entry| e2@) =~= old(vault)@.entries.take(
                    i + 1,
                ).filter(keeps_id(id)));
            }
        }
        i = i + 1;
    }
    proof {
        assert(old(vault)@.entries.take(n as int) =~= old(vault)@.entries);
    }
    vault.entries = kept;
    proof {
        if ids_unique(old(vault)@.entries) {
            lemma_ids_unique_filter(old(vault)@.entries, keeps_id(id));
            lemma_remove_id_count(old(vault)@.entries, id);
        }
        if ids_below_watermark(old(vault)@) {
            lemma_filter_elements(old(vault)@.entries, keeps_id(id));
        }
    }
    removed
}

/// The record a name-based edit stores: the update's nonempty fields
/// replace the prior ones; empty or omitted fields — and always the id —
/// keep their prior values.
pub open spec fn merged_entry(prior: EntryModel, update: EntryModel) -> EntryModel {
    EntryModel {
        id: prior.id,
        name: if update.name.len() == 0 {
            prior.name
        } else {
            update.name
        },
        username: if update.username.len() == 0 {
            prior.username
        } else {
            update.username
        },
        password: if update.password.len() == 0 {
            prior.password
        } else {
            update.password
        },
        notes: match update.notes {
            Option::Some(s) => if s.len() == 0 {
                prior.notes
            } else {
                Option::Some(s)
            },
            Option::None => prior.notes,
        },
    }
}

/// Edits the first entry whose name matches, case-insensitively: only the
/// update's nonempty fields change, and the entry keeps its id, so id
/// uniqueness and the watermark are preserved. Reports whether a match was
/// found.
pub fn edit_entry(vault: &mut VaultV1, name: &str, new_entry: Entry) -> (r: bool)
    ensures
        ({
            let fm = first_match(old(vault)@.entries, name@);
            if fm >= 0 {
                r && final(vault)@.entries == old(vault)@.entries.update(
                    fm,
                    merged_entry(old(vault)@.entries[fm], new_entry@),
                ) && final(vault)@.created_at == old(vault)@.created_at && final(vault)@.last_modified == old(vault)@.last_modified && final(vault)@.next_id == old(vault)@.next_id
            } else {
                !r && *final(vault) == *old(vault)
            }
        }),
        ids_unique(old(vault)@.entries) ==> ids_unique(final(vault)@.entries),
        ids_below_watermark(old(vault)@) ==> ids_below_watermark(final(vault)@),
{
    let n = vault.entries.len();
    let mut i: usize = 0;
    while i < n
        invariant
            i <= n,
            n == vault.entries@.len(),
            *vault == *old(vault),
            forall|j: int|
                0 <= j < i ==> !name_matches((#[trigger] vault@.entries[j]).name, name@),
        decreases n - i,
    {
        if eq_ignore_case(vault.entries[i].name.as_str(), name) {
            proof {
                assert(vault@.entries[i as int] == vault.entries@[i as int]@);
                lemma_first_match_at(vault@.entries, name@, i as int);
            }
            let prior = clone_entry(&vault.entries[i]);
            let merged = Entry {
                id: prior.id,
                name: if new_entry.name.as_str().is_empty() {
                    prior.name
                } else {
                    new_entry.name
                },
                username: if new_entry.username.as_str().is_empty() {
                    prior.username
                } else {
                    new_entry.username
                },
                password: if new_entry.password.as_str().is_empty() {
                    prior.password
                } else {
                    new_entry.password
                },
                notes: match new_entry.notes {
                    Some(s) => if s.as_str().is_empty() {
                        prior.notes
                    } else {
                        Some(s)
                    },
                    None => prior.notes,
                },
            };
            let ghost em = merged@;
            let slot = &mut vault.entries[i];
            *slot = merged;
            proof {
                assert(em == merged_entry(old(vault)@.entries[i as int], new_entry@));
                assert(final(vault)@.entries =~= old(vault)@.entries.update(i as int, em));
                let newe = final(vault)@.entries;
                assert forall|j: int| 0 <= j < newe.len() implies (#[trigger] newe[j]).id == old(vault)@.entries[j].id by {
                    if j != i {
                        assert(newe[j] == old(vault)@.entries[j]);
                    }
                }
            }
            return true;
        }
        i = i + 1;
    }
    proof {
        lemma_first_match(vault@.entries, name@);
    }
    false
}

/// Updates only the supplied fields of the entry bearing this id; omitted
/// fields keep their prior values. Reports whether the entry was found.
pub fn edit_entry_by_id(
    vault: &mut VaultV1,
    id: u32,
    name: Option<String>,
    username: Option<String>,
    password: Option<String>,
    notes: Option<String>,
) -> (r: bool)
    ensures
        ({
            let fm = first_match_id(old(vault)@.entries, id);
            if fm >= 0 {
                let prior = old(vault)@.entries[fm];
                r && final(vault)@.entries == old(vault)@.entries.update(
                    fm,
                    (EntryModel {
                        id: prior.id,
                        name: (match name {
                            Option::Some(s) => s@,
                            Option::None => prior.name,
                        }),
                        username: (match username {
                            Option::Some(s) => s@,
                            Option::None => prior.username,
                        }),
                        password: (match password {
                            Option::Some(s) => s@,
                            Option::None => prior.password,
                        }),
                        notes: (match notes {
                            Option::Some(s) => Option::Some(s@),
                            Option::None => prior.notes,
                        }),
                    }),
                ) && final(vault)@.created_at == old(vault)@.created_at && final(vault)@.last_modified == old(vault)@.last_modified && final(vault)@.next_id == old(vault)@.next_id
            } else {
                !r && *final(vault) == *old(vault)
            }
        }),
        ids_unique(old(vault)@.entries) ==> ids_unique(final(vault)@.entries),
        ids_below_watermark(old(vault)@) ==> ids_below_watermark(final(vault)@),
{
    let n = vault.entries.len();
    let mut i: usize = 0;
    while i < n
        invariant
            i <= n,
            n == vault.entries@.len(),
            *vault == *old(vault),
            forall|j: int| 0 <= j < i ==> (#[trigger] vault@.entries[j]).id != id,
        decreases n - i,
    {
        if vault.entries[i].id == id {
            proof {
                assert(vault@.entries[i as int] == vault.entries@[i as int]@);
                lemma_first_match_id_at(vault@.entries, id, i as int);
            }
            let prior = clone_entry(&vault.entries[i]);
            let merged = Entry {
                id: prior.id,
                name: match name {
                    Some(s) => s,
                    None => prior.name,
                },
                username: match username {
                    Some(s) => s,
                    None => prior.username,
                },
                password: match password {
                    Some(s) => s,
                    None => prior.password,
                },
                notes: match notes {
                    Some(s) => Some(s),
                    None => prior.notes,
                },
            };
            let ghost em = merged@;
            let slot = &mut vault.entries[i];
            *slot = merged;
            proof {
                assert(final(vault)@.entries =~= old(vault)@.entries.update(i as int, em));
                let newe = final(vault)@.entries;
                assert forall|j: int| 0 <= j < newe.len() implies (#[trigger] newe[j]).id
                    == old(vault)@.entries[j].id by {
                    if j != i {
                        assert(newe[j] == old(vault)@.entries[j]);
                    }
                }
            }
            return true;
        }
        i = i + 1;
    }
    proof {
        lemma_first_match_id(vault@.entries, id);
    }
    false
}

/// A mutable handle to the first entry whose name matches,
/// case-insensitively; the vault afterwards holds whatever the caller wrote
/// through it, at that entry's position, and nothing else changes.
pub fn find_entry_mut<'a>(vault: &'a mut VaultV1, name: &str) -> (r: Option<&'a mut Entry>)
    ensures
        ({
            let fm = first_match(old(vault)@.entries, name@);
            match r {
                Some(e) => fm >= 0 && (*e)@ == old(vault)@.entries[fm] && final(vault)@.entries
                    == old(vault)@.entries.update(fm, (*final(e))@) && final(vault)@.created_at
                    == old(vault)@.created_at && final(vault)@.last_modified == old(vault)@.last_modified && final(vault)@.next_id == old(vault)@.next_id,
                None => fm == -1 && *final(vault) == *old(vault),
            }
        }),
{
    let n = vault.entries.len();
    let mut i: usize = 0;
    while i < n
        invariant
            i <= n,
            n == vault.entries@.len(),
            *vault == *old(vault),
            forall|j: int|
                0 <= j < i ==> !name_matches((#[trigger] vault@.entries[j]).name, name@),
        decreases n - i,
    {
        if eq_ignore_case(vault.entries[i].name.as_str(), name) {
            proof {
                assert(vault@.entries[i as int] == vault.entries@[i as int]@);
                lemma_first_match_at(vault@.entries, name@, i as int);
            }
            return Some(&mut vault.entries[i]);
        }
        i = i + 1;
    }
    proof {
        lemma_first_match(vault@.entries, name@);
    }
    None
}

/// A mutable handle to the entry bearing this id, under the same contract
/// as [`find_entry_mut`].
pub fn find_entry_mut_by_id<'a>(vault: &'a mut VaultV1, id: u32) -> (r: Option<&'a mut Entry>)
    ensures
        ({
            let fm = first_match_id(old(vault)@.entries, id);
            match r {
                Some(e) => fm >= 0 && (*e)@ == old(vault)@.entries[fm] && final(vault)@.entries
                    == old(vault)@.entries.update(fm, (*final(e))@) && final(vault)@.created_at
                    == old(vault)@.created_at && final(vault)@.last_modified == old(vault)@.last_modified && final(vault)@.next_id == old(vault)@.next_id,
                None => fm == -1 && *final(vault) == *old(vault),
            }
        }),
{
    let n = vault.entries.len();
    let mut i: usize = 0;
    while i < n
        invariant
            i <= n,
            n == vault.entries@.len(),
            *vault == *old(vault),
            forall|j: int| 0 <= j < i ==> (#[trigger] vault@.entries[j]).id != id,
        decreases n - i,
    {
        if vault.entries[i].id == id {
            proof {
                assert(vault@.entries[i as int] == vault.entries@[i as int]@);
                lemma_first_match_id_at(vault@.entries, id, i as int);
            }
            return Some(&mut vault.entries[i]);
        }
        i = i + 1;
    }
    proof {
        lemma_first_match_id(vault@.entries, id);
    }
    None
}

} // verus!
