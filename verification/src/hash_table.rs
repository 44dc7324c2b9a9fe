//! The keyed store: records on a singly linked chain, addressed by name.
//!
//! Each record caches the 32-bit hash of its name; the hash serves duplicate
//! detection and the snapshot order, never bucket selection.  Every operation
//! first notes itself with the audit logger, then brackets its critical
//! section with acquire and release events.

use crate::logger::{logged_op, LockType, LogMessage, ThreadLogger};
use crate::text::{dec_digits, push_decimal};
use vstd::prelude::*;
use vstd::string::StringExecFns;

verus! {

// ---------------------------------------------------------------------------
// The hash function
// ---------------------------------------------------------------------------
/// One mixing step of the one-at-a-time hash: absorb a byte.
pub open spec fn jenkins_mix(h: u32, byte: u8) -> u32 {
    let absorbed = vstd::wrapping::u32_specs::wrapping_add(h, byte as u32);
    let spread = vstd::wrapping::u32_specs::wrapping_add(absorbed, absorbed << 10);
    spread ^ (spread >> 6)
}

/// The hash state after absorbing all of `bytes`, starting from `h`.
pub open spec fn jenkins_absorb(h: u32, bytes: Seq<u8>) -> u32
    decreases bytes.len(),
{
    if bytes.len() == 0 {
        h
    } else {
        jenkins_absorb(jenkins_mix(h, bytes[0]), bytes.drop_first())
    }
}

/// The finalization mixing of the one-at-a-time hash.
pub open spec fn jenkins_finish(h: u32) -> u32 {
    let first = vstd::wrapping::u32_specs::wrapping_add(h, h << 3);
    let second = first ^ (first >> 11);
    vstd::wrapping::u32_specs::wrapping_add(second, second << 15)
}

/// The one-at-a-time hash of a byte string.
pub open spec fn jenkins_hash(bytes: Seq<u8>) -> u32 {
    jenkins_finish(jenkins_absorb(0, bytes))
}

/// The hash a record for `name` caches: the one-at-a-time hash of the name's
/// UTF-8 bytes.
pub open spec fn hash_of_name(name: Seq<char>) -> u32 {
    jenkins_hash(vstd::utf8::encode_utf8(name))
}

// ---------------------------------------------------------------------------
// Records and their mathematical model
// ---------------------------------------------------------------------------
/// The mathematical value of one record.
pub ghost struct RecordView {
    pub hash: u32,
    pub name: Seq<char>,
    pub salary: u32,
}

/// One record of the store.  `hash` is derived from `name` once, at insert.
#[derive(Debug)]
pub struct HashRecord {
    pub hash: u32,
    pub name: String,
    pub salary: u32,
}

impl View for HashRecord {
    type V = RecordView;

    open spec fn view(&self) -> RecordView {
        RecordView { hash: self.hash, name: self.name@, salary: self.salary }
    }
}

impl DeepView for HashRecord {
    type V = RecordView;

    open spec fn deep_view(&self) -> RecordView {
        self@
    }
}

impl HashRecord {
    /// An independent copy of the record.
    pub fn duplicate(&self) -> (copy: HashRecord)
        ensures
            copy@ == self@,
    {
        HashRecord { hash: self.hash, name: self.name.clone(), salary: self.salary }
    }

    /// The `hash,name,salary` line a record contributes to a report.
    pub open spec fn line(r: RecordView) -> Seq<char> {
        dec_digits(r.hash as nat) + ","@ + r.name + ","@ + dec_digits(r.salary as nat)
    }

    /// Renders the record as its `hash,name,salary` line.
    pub fn render(&self) -> (text: String)
        ensures
            text@ == HashRecord::line(self@),
    {
        let mut text = String::new();
        push_decimal(&mut text, self.hash as u128);
        text.append(",");
        text.append(self.name.as_str());
        text.append(",");
        push_decimal(&mut text, self.salary as u128);
        assert(text@ =~= HashRecord::line(self@));
        text
    }
}

// ---------------------------------------------------------------------------
// Sequence-level helpers over record models
// ---------------------------------------------------------------------------
/// Whether some record of `s` bears the name `name`.
pub open spec fn has_name(s: Seq<RecordView>, name: Seq<char>) -> bool
    decreases s.len(),
{
    s.len() > 0 && (s[0].name == name || has_name(s.drop_first(), name))
}

/// The index of the first record of `s` named `name` (meaningful only when
/// `has_name` holds).
pub open spec fn first_index(s: Seq<RecordView>, name: Seq<char>) -> int
    decreases s.len(),
{
    if s.len() == 0 {
        0
    } else if s[0].name == name {
        0
    } else {
        1 + first_index(s.drop_first(), name)
    }
}

/// Every record caches the hash of its own name, and no two records share a
/// name.
pub open spec fn records_wf(s: Seq<RecordView>) -> bool {
    &&& forall|i: int| 0 <= i < s.len() ==> (#[trigger] s[i]).hash == hash_of_name(s[i].name)
    &&& forall|i: int, j: int|
        0 <= i < j < s.len() ==> (#[trigger] s[i]).name != (#[trigger] s[j]).name
}

/// `has_name` is exactly "some index bears the name", and `first_index` is
/// the least such index.
pub proof fn lemma_has_name_index(s: Seq<RecordView>, name: Seq<char>)
    ensures
        has_name(s, name) <==> exists|i: int| 0 <= i < s.len() && s[i].name == name,
        has_name(s, name) ==> {
            let at = first_index(s, name);
            &&& 0 <= at < s.len()
            &&& s[at].name == name
            &&& forall|i: int| 0 <= i < at ==> (#[trigger] s[i]).name != name
        },
    decreases s.len(),
{
    if s.len() > 0 {
        let rest = s.drop_first();
        lemma_has_name_index(rest, name);
        if s[0].name != name {
            assert forall|i: int| 0 <= i < s.len() && s[i].name == name implies has_name(
                s,
                name,
            ) by {
                assert(rest[i - 1] == s[i]);
            }
            if has_name(s, name) {
                let at = first_index(s, name);
                assert(at == 1 + first_index(rest, name));
                assert(s[at] == rest[at - 1]);
                assert forall|i: int| 0 <= i < at implies (#[trigger] s[i]).name != name by {
                    if i > 0 {
                        assert(s[i] == rest[i - 1]);
                    }
                }
            }
        }
    }
}

// ---------------------------------------------------------------------------
// The chain
// ---------------------------------------------------------------------------
/// One node of the chain; each node owns its successor.
pub struct Node {
    pub record: HashRecord,
    pub next: Option<Box<Node>>,
}

/// The records a chain holds, in chain order.
pub open spec fn chain_model(chain: Option<Box<Node>>) -> Seq<RecordView>
    decreases chain,
{
    match chain {
        None => Seq::empty(),
        Some(node) => seq![node.record@] + chain_model(node.next),
    }
}

/// Well-formedness carries to the tail of a record sequence.
proof fn lemma_records_wf_tail(s: Seq<RecordView>)
    requires
        s.len() > 0,
        records_wf(s),
    ensures
        records_wf(s.drop_first()),
{
    let rest = s.drop_first();
    assert forall|i: int| 0 <= i < rest.len() implies (#[trigger] rest[i]).hash == hash_of_name(
        rest[i].name,
    ) by {
        assert(rest[i] == s[i + 1]);
    }
    assert forall|i: int, j: int| 0 <= i < j < rest.len() implies (#[trigger] rest[i]).name != (
    #[trigger] rest[j]).name by {
        assert(rest[i] == s[i + 1]);
        assert(rest[j] == s[j + 1]);
    }
}

/// Appending a record with a fresh name and a correct cached hash keeps the
/// sequence well-formed.
pub proof fn lemma_records_wf_push(s: Seq<RecordView>, r: RecordView)
    requires
        records_wf(s),
        !has_name(s, r.name),
        r.hash == hash_of_name(r.name),
    ensures
        records_wf(s.push(r)),
{
    lemma_has_name_index(s, r.name);
    let grown = s.push(r);
    assert forall|i: int, j: int| 0 <= i < j < grown.len() implies (#[trigger] grown[i]).name != (
    #[trigger] grown[j]).name by {
        if j < s.len() {
            assert(grown[i] == s[i] && grown[j] == s[j]);
        } else {
            assert(grown[j] == r);
            assert(grown[i] == s[i]);
        }
    }
}

/// Removing a record keeps the sequence well-formed.
pub proof fn lemma_records_wf_remove(s: Seq<RecordView>, at: int)
    requires
        records_wf(s),
        0 <= at < s.len(),
    ensures
        records_wf(s.remove(at)),
{
    s.remove_ensures(at);
    let shrunk = s.remove(at);
    assert forall|i: int| 0 <= i < shrunk.len() implies (#[trigger] shrunk[i]).hash
        == hash_of_name(shrunk[i].name) by {
        if i < at {
            assert(shrunk[i] == s[i]);
        } else {
            assert(shrunk[i] == s[i + 1]);
        }
    }
    assert forall|i: int, j: int| 0 <= i < j < shrunk.len() implies (#[trigger] shrunk[i]).name
        != (#[trigger] shrunk[j]).name by {
        let oi: int = if i < at {
            i
        } else {
            i + 1
        };
        let oj: int = if j < at {
            j
        } else {
            j + 1
        };
        assert(shrunk[i] == s[oi]);
        assert(shrunk[j] == s[oj]);
    }
}

/// Replacing a record by one with the same name and hash keeps the sequence
/// well-formed.
pub proof fn lemma_records_wf_update(s: Seq<RecordView>, at: int, r: RecordView)
    requires
        records_wf(s),
        0 <= at < s.len(),
        r.name == s[at].name,
        r.hash == s[at].hash,
    ensures
        records_wf(s.update(at, r)),
{
    let changed = s.update(at, r);
    assert forall|i: int, j: int| 0 <= i < j < changed.len() implies (#[trigger] changed[i]).name
        != (#[trigger] changed[j]).name by {
        assert(s[i].name != s[j].name);
    }
}

// ---------------------------------------------------------------------------
// Chain operations
// ---------------------------------------------------------------------------
/// Appends `rec` at the tail unless the chain already holds its name; reports
/// whether it was a duplicate.
fn chain_insert(chain: &mut Option<Box<Node>>, rec: HashRecord) -> (dup: bool)
    requires
        records_wf(chain_model(*old(chain))),
        rec@.hash == hash_of_name(rec@.name),
    ensures
        dup == has_name(chain_model(*old(chain)), rec@.name),
        dup ==> chain_model(*final(chain)) == chain_model(*old(chain)),
        !dup ==> chain_model(*final(chain)) == chain_model(*old(chain)).push(rec@),
    decreases *old(chain),
{
    let ghost pre = chain_model(*old(chain));
    match chain.take() {
        None => {
            *chain = Some(Box::new(Node { record: rec, next: None }));
            proof {
                assert(chain_model(*chain) =~= pre.push(rec@));
            }
            false
        },
        Some(mut node) => {
            let ghost rest = chain_model(node.next);
            proof {
                assert(pre == seq![node.record@] + rest);
                assert(pre[0] == node.record@);
                assert(pre.drop_first() =~= rest);
                lemma_records_wf_tail(pre);
            }
            if node.record.hash == rec.hash && node.record.name == rec.name {
                *chain = Some(node);
                true
            } else {
                proof {
                    assert(node.record@.name != rec@.name) by {
                        if node.record@.name == rec@.name {
                            assert(pre[0].hash == hash_of_name(pre[0].name));
                        }
                    }
                }
                let dup = chain_insert(&mut node.next, rec);
                let ghost rest_post = chain_model(node.next);
                *chain = Some(node);
                proof {
                    assert(chain_model(*chain) == seq![node.record@] + rest_post);
                    if !dup {
                        assert(seq![node.record@] + rest.push(rec@) =~= pre.push(rec@));
                    }
                }
                dup
            }
        },
    }
}

/// Unlinks the first record named `key`, handing it back, or reports that the
/// chain holds no such record.
fn chain_delete(chain: &mut Option<Box<Node>>, hash: u32, key: &String) -> (removed: Option<
    HashRecord,
>)
    requires
        records_wf(chain_model(*old(chain))),
        hash == hash_of_name(key@),
    ensures
        ({
            let pre = chain_model(*old(chain));
            match removed {
                None => !has_name(pre, key@) && chain_model(*final(chain)) == pre,
                Some(rec) => {
                    &&& has_name(pre, key@)
                    &&& rec@ == pre[first_index(pre, key@)]
                    &&& chain_model(*final(chain)) == pre.remove(first_index(pre, key@))
                },
            }
        }),
    decreases *old(chain),
{
    let ghost pre = chain_model(*old(chain));
    match chain.take() {
        None => None,
        Some(mut node) => {
            let ghost rest = chain_model(node.next);
            proof {
                assert(pre == seq![node.record@] + rest);
                assert(pre[0] == node.record@);
                assert(pre.drop_first() =~= rest);
                lemma_records_wf_tail(pre);
            }
            if node.record.hash == hash && node.record.name == *key {
                let unlinked = *node;
                *chain = unlinked.next;
                proof {
                    assert(pre[0].name == key@);
                    pre.remove_ensures(0);
                    assert(pre.remove(0) =~= rest);
                }
                Some(unlinked.record)
            } else {
                proof {
                    assert(node.record@.name != key@) by {
                        if node.record@.name == key@ {
                            assert(pre[0].hash == hash_of_name(pre[0].name));
                        }
                    }
                }
                let removed = chain_delete(&mut node.next, hash, key);
                let ghost rest_post = chain_model(node.next);
                *chain = Some(node);
                proof {
                    assert(chain_model(*chain) == seq![node.record@] + rest_post);
                    if removed is Some {
                        let at = first_index(rest, key@);
                        lemma_has_name_index(rest, key@);
                        assert(first_index(pre, key@) == 1 + at);
                        assert(pre[1 + at] == rest[at]);
                        pre.remove_ensures(1 + at);
                        rest.remove_ensures(at);
                        assert(pre.remove(1 + at) =~= seq![node.record@] + rest.remove(at));
                    }
                }
                removed
            }
        },
    }
}

/// Overwrites the salary of the first record named `key` in place, handing
/// back copies of the record before and after, or reports no match.
fn chain_update(chain: &mut Option<Box<Node>>, hash: u32, key: &String, salary: u32) -> (updated:
    Option<(HashRecord, HashRecord)>)
    requires
        records_wf(chain_model(*old(chain))),
        hash == hash_of_name(key@),
    ensures
        ({
            let pre = chain_model(*old(chain));
            match updated {
                None => !has_name(pre, key@) && chain_model(*final(chain)) == pre,
                Some(pair) => {
                    let at = first_index(pre, key@);
                    &&& has_name(pre, key@)
                    &&& pair.0@ == pre[at]
                    &&& pair.1@ == (RecordView {
                        hash: pre[at].hash,
                        name: pre[at].name,
                        salary: salary,
                    })
                    &&& chain_model(*final(chain)) == pre.update(at, pair.1@)
                },
            }
        }),
    decreases *old(chain),
{
    let ghost pre = chain_model(*old(chain));
    match chain.take() {
        None => None,
        Some(mut node) => {
            let ghost rest = chain_model(node.next);
            proof {
                assert(pre == seq![node.record@] + rest);
                assert(pre[0] == node.record@);
                assert(pre.drop_first() =~= rest);
                lemma_records_wf_tail(pre);
            }
            if node.record.hash == hash && node.record.name == *key {
                let old_rec = node.record.duplicate();
                node.record.salary = salary;
                let new_rec = node.record.duplicate();
                let ghost rest_post = chain_model(node.next);
                *chain = Some(node);
                proof {
                    assert(rest_post == rest);
                    assert(pre[0].name == key@);
                    assert(chain_model(*chain) =~= pre.update(0, new_rec@));
                }
                Some((old_rec, new_rec))
            } else {
                proof {
                    assert(node.record@.name != key@) by {
                        if node.record@.name == key@ {
                            assert(pre[0].hash == hash_of_name(pre[0].name));
                        }
                    }
                }
                let updated = chain_update(&mut node.next, hash, key, salary);
                let ghost rest_post = chain_model(node.next);
                *chain = Some(node);
                proof {
                    assert(chain_model(*chain) == seq![node.record@] + rest_post);
                    match &updated {
                        Some(pair) => {
                            let at = first_index(rest, key@);
                            lemma_has_name_index(rest, key@);
                            assert(first_index(pre, key@) == 1 + at);
                            assert(pre[1 + at] == rest[at]);
                            assert(pre.update(1 + at, pair.1@) =~= seq![node.record@]
                                + rest.update(at, pair.1@));
                        },
                        None => {},
                    }
                }
                updated
            }
        },
    }
}

/// The first record named `key`, if the chain holds one.
fn chain_find<'a>(chain: &'a Option<Box<Node>>, hash: u32, key: &String) -> (found: Option<
    &'a HashRecord,
>)
    requires
        records_wf(chain_model(*chain)),
        hash == hash_of_name(key@),
    ensures
        ({
            let here = chain_model(*chain);
            match found {
                None => !has_name(here, key@),
                Some(rec) => has_name(here, key@) && rec@ == here[first_index(here, key@)],
            }
        }),
    decreases *chain,
{
    let ghost here = chain_model(*chain);
    match chain {
        None => None,
        Some(node) => {
            let ghost rest = chain_model(node.next);
            proof {
                assert(here == seq![node.record@] + rest);
                assert(here[0] == node.record@);
                assert(here.drop_first() =~= rest);
                lemma_records_wf_tail(here);
            }
            if node.record.hash == hash && node.record.name == *key {
                Some(&node.record)
            } else {
                proof {
                    assert(node.record@.name != key@) by {
                        if node.record@.name == key@ {
                            assert(here[0].hash == hash_of_name(here[0].name));
                        }
                    }
                }
                let found = chain_find(&node.next, hash, key);
                proof {
                    if found is Some {
                        let at = first_index(rest, key@);
                        lemma_has_name_index(rest, key@);
                        assert(here[1 + at] == rest[at]);
                    }
                }
                found
            }
        },
    }
}

/// Copies every record, in chain order, onto the end of `out`.
fn chain_collect(chain: &Option<Box<Node>>, out: &mut Vec<HashRecord>)
    ensures
        final(out).deep_view() == old(out).deep_view() + chain_model(*chain),
    decreases *chain,
{
    match chain {
        None => {
            proof {
                assert(out.deep_view() =~= old(out).deep_view() + chain_model(*chain));
            }
        },
        Some(node) => {
            out.push(node.record.duplicate());
            proof {
                assert(out.deep_view() =~= old(out).deep_view().push(node.record@));
            }
            chain_collect(&node.next, out);
            proof {
                assert(out.deep_view() =~= old(out).deep_view() + chain_model(*chain));
            }
        },
    }
}

// ---------------------------------------------------------------------------
// The notes an operation logs before its critical section
// ---------------------------------------------------------------------------
/// The note an insert logs: `INSERT,<hash>,<name>,<salary>`.
pub open spec fn insert_note(name: Seq<char>, salary: u32) -> Seq<char> {
    "INSERT,"@ + dec_digits(hash_of_name(name) as nat) + ","@ + name + ","@ + dec_digits(
        salary as nat,
    )
}

/// The note a delete logs: `DELETE,<hash>,<name>`.
pub open spec fn delete_note(name: Seq<char>) -> Seq<char> {
    "DELETE,"@ + dec_digits(hash_of_name(name) as nat) + ","@ + name
}

/// The note an update logs: `UPDATE,<hash>,<name>,<salary>`.
pub open spec fn update_note(name: Seq<char>, salary: u32) -> Seq<char> {
    "UPDATE,"@ + dec_digits(hash_of_name(name) as nat) + ","@ + name + ","@ + dec_digits(
        salary as nat,
    )
}

/// The note a search logs: `SEARCH,<hash>,<name>`.
pub open spec fn search_note(name: Seq<char>) -> Seq<char> {
    "SEARCH,"@ + dec_digits(hash_of_name(name) as nat) + ","@ + name
}

/// The note a snapshot logs.
pub open spec fn print_note() -> Seq<char> {
    "PRINT"@
}

/// Builds `<verb>,<hash>,<name>` and, when `salary` is given, `,<salary>`.
fn build_note(verb: &str, hash: u32, name: &str, salary: Option<u32>) -> (note: String)
    ensures
        ({
            let head = verb@ + dec_digits(hash as nat) + ","@ + name@;
            note@ == (match salary {
                Some(value) => head + ","@ + dec_digits(value as nat),
                None => head,
            })
        }),
{
    let mut note = String::new();
    note.append(verb);
    push_decimal(&mut note, hash as u128);
    note.append(",");
    note.append(name);
    match salary {
        Some(value) => {
            note.append(",");
            push_decimal(&mut note, value as u128);
            assert(note@ =~= verb@ + dec_digits(hash as nat) + ","@ + name@ + ","@ + dec_digits(
                value as nat,
            ));
        },
        None => {
            assert(note@ =~= verb@ + dec_digits(hash as nat) + ","@ + name@);
        },
    }
    note
}

// ---------------------------------------------------------------------------
// Snapshot order: ascending hash, ties kept in chain order
// ---------------------------------------------------------------------------
/// Whether `s` is ordered by ascending hash.
pub open spec fn sorted_by_hash(s: Seq<RecordView>) -> bool {
    forall|i: int, j: int| 0 <= i < j < s.len() ==> (#[trigger] s[i]).hash <= (#[trigger] s[j]).hash
}

/// Places `r` after every record whose hash is at most `r.hash`: a stable
/// insertion.
pub open spec fn sorted_insert(s: Seq<RecordView>, r: RecordView) -> Seq<RecordView>
    decreases s.len(),
{
    if s.len() == 0 {
        seq![r]
    } else if s.last().hash <= r.hash {
        s.push(r)
    } else {
        sorted_insert(s.drop_last(), r).push(s.last())
    }
}

/// The stable sort of `s` by ascending hash: records are inserted one by one
/// in chain order.
pub open spec fn sort_by_hash(s: Seq<RecordView>) -> Seq<RecordView>
    decreases s.len(),
{
    if s.len() == 0 {
        Seq::empty()
    } else {
        sorted_insert(sort_by_hash(s.drop_last()), s.last())
    }
}

/// Inserting at a position whose left neighbour is no larger and whose whole
/// suffix is larger is exactly `sorted_insert`.
proof fn lemma_sorted_insert_at(s: Seq<RecordView>, r: RecordView, pos: int)
    requires
        0 <= pos <= s.len(),
        forall|k: int| pos <= k < s.len() ==> (#[trigger] s[k]).hash > r.hash,
        pos > 0 ==> s[pos - 1].hash <= r.hash,
    ensures
        sorted_insert(s, r) == s.insert(pos, r),
    decreases s.len(),
{
    if s.len() == 0 {
        assert(sorted_insert(s, r) =~= s.insert(0, r));
    } else if pos == s.len() {
        assert(sorted_insert(s, r) =~= s.insert(pos, r));
    } else {
        assert(s[s.len() - 1].hash > r.hash);
        lemma_sorted_insert_at(s.drop_last(), r, pos);
        assert(s.drop_last().insert(pos, r).push(s.last()) =~= s.insert(pos, r));
    }
}

/// Stable insertion keeps the order by hash.
pub proof fn lemma_sorted_insert_sorted(s: Seq<RecordView>, r: RecordView)
    requires
        sorted_by_hash(s),
    ensures
        sorted_by_hash(sorted_insert(s, r)),
    decreases s.len(),
{
    if s.len() > 0 && s.last().hash > r.hash {
        assert(sorted_by_hash(s.drop_last())) by {
            assert(forall|i: int| 0 <= i < s.len() - 1 ==> s.drop_last()[i] == s[i]);
        }
        lemma_sorted_insert_sorted(s.drop_last(), r);
        lemma_sorted_insert_len(s.drop_last(), r);
        let inner = sorted_insert(s.drop_last(), r);
        let grown = inner.push(s.last());
        assert forall|i: int, j: int| 0 <= i < j < grown.len() implies (#[trigger] grown[i]).hash
            <= (#[trigger] grown[j]).hash by {
            if j < inner.len() {
                assert(grown[i] == inner[i] && grown[j] == inner[j]);
            } else {
                assert(grown[j] == s.last());
                assert(grown[i] == inner[i]);
                lemma_sorted_insert_members(s.drop_last(), r, i);
                if inner[i] != r {
                    let k = choose|k: int|
                        0 <= k < s.drop_last().len() && (#[trigger] s.drop_last()[k]) == inner[i];
                    assert(s.drop_last()[k] == s[k]);
                    assert(s[k].hash <= s.last().hash);
                }
            }
        }
        assert(sorted_insert(s, r) == grown);
    }
}

/// Stable insertion grows the sequence by one.
proof fn lemma_sorted_insert_len(s: Seq<RecordView>, r: RecordView)
    ensures
        sorted_insert(s, r).len() == s.len() + 1,
    decreases s.len(),
{
    if s.len() > 0 && s.last().hash > r.hash {
        lemma_sorted_insert_len(s.drop_last(), r);
    }
}

/// Every record of a stable insertion is the inserted one or one of the
/// original records.
proof fn lemma_sorted_insert_members(s: Seq<RecordView>, r: RecordView, i: int)
    requires
        0 <= i < sorted_insert(s, r).len(),
    ensures
        sorted_insert(s, r)[i] == r || exists|k: int|
            0 <= k < s.len() && (#[trigger] s[k]) == sorted_insert(s, r)[i],
    decreases s.len(),
{
    lemma_sorted_insert_len(s, r);
    if s.len() == 0 {
    } else if s.last().hash <= r.hash {
    } else {
        lemma_sorted_insert_len(s.drop_last(), r);
        if i < sorted_insert(s, r).len() - 1 {
            lemma_sorted_insert_members(s.drop_last(), r, i);
            if sorted_insert(s, r)[i] != r {
                let k = choose|k: int|
                    0 <= k < s.drop_last().len() && (#[trigger] s.drop_last()[k]) == sorted_insert(
                        s,
                        r,
                    )[i];
                assert(s[k] == s.drop_last()[k]);
            }
        } else {
            assert(sorted_insert(s, r)[i] == s.last());
            assert(s[s.len() - 1] == s.last());
        }
    }
}

/// The sort orders by ascending hash.
pub proof fn lemma_sort_sorted(s: Seq<RecordView>)
    ensures
        sorted_by_hash(sort_by_hash(s)),
    decreases s.len(),
{
    if s.len() > 0 {
        lemma_sort_sorted(s.drop_last());
        lemma_sorted_insert_sorted(sort_by_hash(s.drop_last()), s.last());
    }
}

/// Sorting a sequence already in order returns it unchanged; hence the
/// snapshot is idempotent.
pub proof fn lemma_sort_of_sorted(s: Seq<RecordView>)
    requires
        sorted_by_hash(s),
    ensures
        sort_by_hash(s) == s,
    decreases s.len(),
{
    if s.len() > 0 {
        assert(sorted_by_hash(s.drop_last())) by {
            assert(forall|i: int| 0 <= i < s.len() - 1 ==> s.drop_last()[i] == s[i]);
        }
        lemma_sort_of_sorted(s.drop_last());
        if s.len() >= 2 {
            assert(s.drop_last().last() == s[s.len() - 2]);
            assert(s[s.len() - 2].hash <= s[s.len() - 1].hash);
        }
        assert(sort_by_hash(s) =~= s);
    }
}

/// Sorting twice is sorting once.
pub proof fn lemma_sort_idempotent(s: Seq<RecordView>)
    ensures
        sort_by_hash(sort_by_hash(s)) == sort_by_hash(s),
{
    lemma_sort_sorted(s);
    lemma_sort_of_sorted(sort_by_hash(s));
}

/// How many records of `s` bear the name `name`.
pub open spec fn count_named(s: Seq<RecordView>, name: Seq<char>) -> nat
    decreases s.len(),
{
    if s.len() == 0 {
        0
    } else {
        count_named(s.drop_last(), name) + (if s.last().name == name {
            1nat
        } else {
            0nat
        })
    }
}

/// Stable insertion adds one record; the count of any name moves accordingly.
proof fn lemma_sorted_insert_count(s: Seq<RecordView>, r: RecordView, name: Seq<char>)
    ensures
        count_named(sorted_insert(s, r), name) == count_named(s, name) + (if r.name == name {
            1nat
        } else {
            0nat
        }),
    decreases s.len(),
{
    if s.len() == 0 {
        assert(seq![r].drop_last() =~= Seq::<RecordView>::empty());
        assert(seq![r].last() == r);
        assert(count_named(seq![r], name) == count_named(Seq::<RecordView>::empty(), name) + (
        if r.name == name {
            1nat
        } else {
            0nat
        }));
    } else if s.last().hash <= r.hash {
        assert(s.push(r).drop_last() =~= s);
        assert(s.push(r).last() == r);
        assert(count_named(s.push(r), name) == count_named(s, name) + (if r.name == name {
            1nat
        } else {
            0nat
        }));
    } else {
        lemma_sorted_insert_count(s.drop_last(), r, name);
        let inner = sorted_insert(s.drop_last(), r);
        assert(inner.push(s.last()).drop_last() =~= inner);
        assert(inner.push(s.last()).last() == s.last());
        assert(count_named(sorted_insert(s, r), name) == count_named(inner, name) + (
        if s.last().name == name {
            1nat
        } else {
            0nat
        }));
    }
}

/// The sort keeps the count of every name.
pub proof fn lemma_sort_count(s: Seq<RecordView>, name: Seq<char>)
    ensures
        count_named(sort_by_hash(s), name) == count_named(s, name),
    decreases s.len(),
{
    if s.len() > 0 {
        lemma_sort_count(s.drop_last(), name);
        lemma_sorted_insert_count(sort_by_hash(s.drop_last()), s.last(), name);
    }
}

/// Moves `rec` into `records` at its stable position.
fn insert_sorted(records: &mut Vec<HashRecord>, rec: HashRecord)
    ensures
        final(records).deep_view() == sorted_insert(old(records).deep_view(), rec@),
{
    let mut pos = records.len();
    while pos > 0 && records[pos - 1].hash > rec.hash
        invariant
            pos <= records.len(),
            forall|k: int|
                pos <= k < records.len() ==> (#[trigger] records.deep_view()[k]).hash > rec@.hash,
        decreases pos,
    {
        pos = pos - 1;
    }
    proof {
        lemma_sorted_insert_at(records.deep_view(), rec@, pos as int);
    }
    records.insert(pos, rec);
    proof {
        assert(records.deep_view() =~= old(records).deep_view().insert(
            pos as int,
            rec@,
        ));
    }
}

/// A copy of `records` in snapshot order.
fn sort_records(records: &Vec<HashRecord>) -> (sorted: Vec<HashRecord>)
    ensures
        sorted.deep_view() == sort_by_hash(records.deep_view()),
{
    let mut sorted: Vec<HashRecord> = Vec::new();
    let mut i: usize = 0;
    proof {
        assert(records.deep_view().take(0) =~= Seq::<RecordView>::empty());
    }
    while i < records.len()
        invariant
            i <= records.len(),
            sorted.deep_view() == sort_by_hash(records.deep_view().take(i as int)),
        decreases records.len() - i,
    {
        insert_sorted(&mut sorted, records[i].duplicate());
        proof {
            let upto = records.deep_view().take(i + 1);
            assert(upto.drop_last() =~= records.deep_view().take(i as int));
            assert(upto.last() == records.deep_view()[i as int]);
        }
        i = i + 1;
    }
    proof {
        assert(records.deep_view().take(records.len() as int) =~= records.deep_view());
    }
    sorted
}

/// The sort keeps the length.
pub proof fn lemma_sort_len(s: Seq<RecordView>)
    ensures
        sort_by_hash(s).len() == s.len(),
    decreases s.len(),
{
    if s.len() > 0 {
        lemma_sort_len(s.drop_last());
        lemma_sorted_insert_len(sort_by_hash(s.drop_last()), s.last());
    }
}

/// Every record of the sort is one of the original records.
pub proof fn lemma_sort_members(s: Seq<RecordView>, i: int)
    requires
        0 <= i < sort_by_hash(s).len(),
    ensures
        exists|k: int| 0 <= k < s.len() && (#[trigger] s[k]) == sort_by_hash(s)[i],
    decreases s.len(),
{
    lemma_sort_len(s);
    if s.len() > 0 {
        let inner = sort_by_hash(s.drop_last());
        lemma_sort_len(s.drop_last());
        lemma_sorted_insert_members(inner, s.last(), i);
        let here = sort_by_hash(s)[i];
        if here == s.last() {
            assert(s[s.len() - 1] == here);
        } else {
            let j = choose|j: int| 0 <= j < inner.len() && (#[trigger] inner[j]) == here;
            lemma_sort_members(s.drop_last(), j);
            let k = choose|k: int|
                0 <= k < s.drop_last().len() && (#[trigger] s.drop_last()[k]) == inner[j];
            assert(s[k] == here);
        }
    }
}

/// A sequence without a name counts zero records of it, and conversely.
proof fn lemma_count_named_zero(s: Seq<RecordView>, name: Seq<char>)
    ensures
        (count_named(s, name) == 0) <==> (forall|i: int|
            0 <= i < s.len() ==> (#[trigger] s[i]).name != name),
    decreases s.len(),
{
    if s.len() > 0 {
        lemma_count_named_zero(s.drop_last(), name);
        assert(forall|i: int| 0 <= i < s.len() - 1 ==> s.drop_last()[i] == s[i]);
        assert(s.last() == s[s.len() - 1]);
    }
}

/// Appending one record of a fresh name raises its count to one.
proof fn lemma_count_named_push(s: Seq<RecordView>, r: RecordView, name: Seq<char>)
    ensures
        count_named(s.push(r), name) == count_named(s, name) + (if r.name == name {
            1nat
        } else {
            0nat
        }),
{
    assert(s.push(r).drop_last() =~= s);
    assert(s.push(r).last() == r);
}

// ---------------------------------------------------------------------------
// Laws of the store
// ---------------------------------------------------------------------------
/// Insert/search round-trip: after inserting a fresh name, a search finds the
/// record just inserted, salary included.
pub proof fn lemma_insert_search_round_trip(pre: Seq<RecordView>, name: Seq<char>, salary: u32)
    ensures
        ({
            let post = pre.push((RecordView { hash: hash_of_name(name), name: name, salary }));
            !has_name(pre, name) ==> {
                &&& has_name(post, name)
                &&& post[first_index(post, name)] == (RecordView {
                    hash: hash_of_name(name),
                    name: name,
                    salary,
                })
            }
        }),
{
    let rec = RecordView { hash: hash_of_name(name), name: name, salary };
    let post = pre.push(rec);
    if !has_name(pre, name) {
        lemma_has_name_index(pre, name);
        lemma_has_name_index(post, name);
        assert(post[pre.len() as int].name == name);
        let at = first_index(post, name);
        if at < pre.len() {
            assert(post[at] == pre[at]);
        }
    }
}

/// Duplicate rejection: after one insert of a fresh name, the name is
/// present (so a second insert is turned away with no mutation), and the
/// snapshot holds exactly one record of the name, bearing the first-inserted
/// salary.
pub proof fn lemma_duplicate_rejection(pre: Seq<RecordView>, name: Seq<char>, salary: u32)
    requires
        !has_name(pre, name),
    ensures
        ({
            let rec = RecordView { hash: hash_of_name(name), name: name, salary };
            let once = pre.push(rec);
            let snapshot = sort_by_hash(once);
            &&& has_name(once, name)
            &&& count_named(snapshot, name) == 1
            &&& forall|i: int|
                0 <= i < snapshot.len() && (#[trigger] snapshot[i]).name == name ==> snapshot[i]
                    == rec
        }),
{
    let rec = RecordView { hash: hash_of_name(name), name: name, salary };
    let once = pre.push(rec);
    let snapshot = sort_by_hash(once);
    lemma_has_name_index(pre, name);
    lemma_has_name_index(once, name);
    assert(once[pre.len() as int] == rec);
    lemma_count_named_zero(pre, name);
    lemma_count_named_push(pre, rec, name);
    lemma_sort_count(once, name);
    lemma_sort_len(once);
    assert forall|i: int| 0 <= i < snapshot.len() && (#[trigger] snapshot[i]).name
        == name implies snapshot[i] == rec by {
        lemma_sort_members(once, i);
        let k = choose|k: int| 0 <= k < once.len() && (#[trigger] once[k]) == snapshot[i];
        if k < pre.len() {
            assert(pre[k] == once[k]);
        }
    }
}

/// Delete/search consistency: removing the one record of a name leaves a
/// well-formed store without the name, one record shorter; a search then
/// misses.
pub proof fn lemma_delete_then_search(pre: Seq<RecordView>, name: Seq<char>)
    requires
        records_wf(pre),
        has_name(pre, name),
    ensures
        ({
            let post = pre.remove(first_index(pre, name));
            &&& records_wf(post)
            &&& !has_name(post, name)
            &&& post.len() == pre.len() - 1
        }),
{
    lemma_has_name_index(pre, name);
    let at = first_index(pre, name);
    let post = pre.remove(at);
    pre.remove_ensures(at);
    lemma_records_wf_remove(pre, at);
    lemma_has_name_index(post, name);
    if has_name(post, name) {
        let j = choose|j: int| 0 <= j < post.len() && post[j].name == name;
        let original: int = if j < at {
            j
        } else {
            j + 1
        };
        assert(post[j] == pre[original]);
        assert(pre[original].name == pre[at].name && original != at);
    }
}

/// Update semantics: updating a present name rewrites only the salary of its
/// record, in place; every other record, and the record's name and hash, are
/// untouched, and a search then sees the new salary.
pub proof fn lemma_update_then_search(pre: Seq<RecordView>, name: Seq<char>, value: u32)
    requires
        records_wf(pre),
        has_name(pre, name),
    ensures
        ({
            let at = first_index(pre, name);
            let renewed = RecordView { hash: pre[at].hash, name: pre[at].name, salary: value };
            let post = pre.update(at, renewed);
            &&& records_wf(post)
            &&& post.len() == pre.len()
            &&& forall|i: int| 0 <= i < pre.len() && i != at ==> post[i] == pre[i]
            &&& post[at].name == pre[at].name
            &&& post[at].hash == pre[at].hash
            &&& has_name(post, name)
            &&& first_index(post, name) == at
            &&& post[first_index(post, name)].salary == value
        }),
{
    lemma_has_name_index(pre, name);
    let at = first_index(pre, name);
    let renewed = RecordView { hash: pre[at].hash, name: pre[at].name, salary: value };
    let post = pre.update(at, renewed);
    lemma_records_wf_update(pre, at, renewed);
    lemma_has_name_index(post, name);
    assert(post[at].name == name);
    let fresh_at = first_index(post, name);
    if fresh_at < at {
        assert(pre[fresh_at].name != name);
        assert(post[fresh_at] == pre[fresh_at]);
    }
}

/// The record lines of a report, joined by newlines, no trailing newline.
pub open spec fn joined_lines(s: Seq<RecordView>) -> Seq<char>
    decreases s.len(),
{
    if s.len() == 0 {
        Seq::empty()
    } else if s.len() == 1 {
        HashRecord::line(s[0])
    } else {
        HashRecord::line(s[0]) + "\n"@ + joined_lines(s.drop_first())
    }
}

/// The final summary: both counters, then the snapshot in hash order.
pub open spec fn summary_text(acquisitions: usize, releases: usize, records: Seq<RecordView>) -> Seq<
    char,
> {
    "\nNumber of lock acquisitions: "@ + dec_digits(acquisitions as nat)
        + "\nNumber of lock releases: "@ + dec_digits(releases as nat) + "\nFinal Table:\n"@
        + joined_lines(sort_by_hash(records))
}

/// Renders the record lines from `start` on, joined by newlines.
fn join_from(records: &Vec<HashRecord>, start: usize) -> (text: String)
    requires
        start <= records.len(),
    ensures
        text@ == joined_lines(records.deep_view().skip(start as int)),
    decreases records.len() - start,
{
    let ghost tail = records.deep_view().skip(start as int);
    if start == records.len() {
        proof {
            assert(tail =~= Seq::<RecordView>::empty());
        }
        String::new()
    } else {
        let mut text = records[start].render();
        proof {
            assert(tail[0] == records.deep_view()[start as int]);
        }
        if start + 1 < records.len() {
            text.append("\n");
            let rest = join_from(records, start + 1);
            let text = text.concat(rest.as_str());
            proof {
                assert(tail.drop_first() =~= records.deep_view().skip(start + 1));
                assert(text@ =~= joined_lines(tail));
            }
            text
        } else {
            proof {
                assert(tail.len() == 1);
            }
            text
        }
    }
}

// ---------------------------------------------------------------------------
// Operation results
// ---------------------------------------------------------------------------
pub enum InsertResult {
    Success { record: HashRecord },
    Duplicate { hash: u32 },
}

pub enum DeleteResult {
    Success { record: HashRecord },
    NotFound { hash: u32 },
}

pub enum UpdateResult {
    Success { old_record: HashRecord, new_record: HashRecord },
    NotFound { hash: u32 },
}

pub enum SearchResult {
    Found { record: HashRecord },
    NotFound { name: String },
}

// ---------------------------------------------------------------------------
// The store
// ---------------------------------------------------------------------------
/// The keyed store: the chain head and the audit logger the operations feed.
pub struct HashTable {
    pub head: Option<Box<Node>>,
    pub logger: ThreadLogger,
}

impl View for HashTable {
    type V = Seq<RecordView>;

    open spec fn view(&self) -> Seq<RecordView> {
        chain_model(self.head)
    }
}

impl HashTable {
    /// The chain caches correct hashes, names are unique, and the logger's
    /// counters agree with its history.
    pub open spec fn wf(&self) -> bool {
        &&& records_wf(self@)
        &&& self.logger.wf()
    }

    pub fn new(logger: ThreadLogger) -> (table: Self)
        requires
            logger.wf(),
        ensures
            table.wf(),
            table@ == Seq::<RecordView>::empty(),
            table.logger == logger,
    {
        HashTable { head: None, logger }
    }

    /// The one-at-a-time hash: absorb each byte, then finalize.  Additions
    /// wrap; shifts and xors mix the accumulator.
    pub fn jenkins_one_at_a_time_hash(key: &[u8]) -> (h: u32)
        ensures
            h == jenkins_hash(key@),
    {
        let mut hash: u32 = 0;
        let mut i: usize = 0;
        proof {
            assert(key@.skip(0) =~= key@);
        }
        while i < key.len()
            invariant
                i <= key@.len(),
                jenkins_absorb(hash, key@.skip(i as int)) == jenkins_absorb(0, key@),
            decreases key@.len() - i,
        {
            let byte = key[i];
            proof {
                let remaining = key@.skip(i as int);
                assert(remaining[0] == key@[i as int]);
                assert(remaining.drop_first() =~= key@.skip(i + 1));
            }
            let absorbed = hash.wrapping_add(byte as u32);
            let spread = absorbed.wrapping_add(absorbed << 10u32);
            hash = spread ^ (spread >> 6u32);
            i = i + 1;
        }
        proof {
            assert(key@.skip(key@.len() as int) =~= Seq::<u8>::empty());
        }
        let first = hash.wrapping_add(hash << 3u32);
        let second = first ^ (first >> 11u32);
        second.wrapping_add(second << 15u32)
    }

    /// The cached hash for `key`: the one-at-a-time hash of its UTF-8 bytes.
    fn hash_of_key(key: &str) -> (h: u32)
        ensures
            h == hash_of_name(key@),
    {
        Self::jenkins_one_at_a_time_hash(key.as_bytes())
    }

    /// Inserts a record for `key`, appended at the tail, unless a record of
    /// that name exists; a duplicate is rejected, never overwritten.  Logs
    /// the operation note, then the write-lock bracket.
    pub fn insert(&mut self, key: &str, value: u32, priority: u32) -> (result: InsertResult)
        requires
            old(self).wf(),
        ensures
            final(self).wf(),
            logged_op(
                old(self).logger,
                final(self).logger,
                priority,
                insert_note(key@, value),
                LockType::Write,
            ),
            ({
                let pre = old(self)@;
                if has_name(pre, key@) {
                    &&& final(self)@ == pre
                    &&& (match result {
                        InsertResult::Duplicate { hash } => hash == hash_of_name(key@),
                        _ => false,
                    })
                } else {
                    &&& final(self)@ == pre.push(
                        (RecordView { hash: hash_of_name(key@), name: key@, salary: value }),
                    )
                    &&& (match result {
                        InsertResult::Success { record } => record@ == (RecordView {
                            hash: hash_of_name(key@),
                            name: key@,
                            salary: value,
                        }),
                        _ => false,
                    })
                }
            }),
    {
        let hashed_val = Self::hash_of_key(key);
        let note = build_note("INSERT,", hashed_val, key, Some(value));
        proof {
            assert(note@ =~= insert_note(key@, value));
        }
        let ghost l0 = self.logger;
        self.logger.log_id(priority, LogMessage::Custom(note));
        let ghost l1 = self.logger;
        self.logger.log_id(priority, LogMessage::Acquire(LockType::Write));
        let ghost l2 = self.logger;
        let record = HashRecord { hash: hashed_val, name: key.to_owned(), salary: value };
        let stored = record.duplicate();
        let dup = chain_insert(&mut self.head, stored);
        proof {
            if !dup {
                lemma_records_wf_push(old(self)@, record@);
            }
        }
        self.logger.log_id(priority, LogMessage::Release(LockType::Write));
        proof {
            crate::logger::lemma_three_events(
                l0,
                l1,
                l2,
                self.logger,
                priority,
                insert_note(key@, value),
                LockType::Write,
            );
        }
        if dup {
            InsertResult::Duplicate { hash: hashed_val }
        } else {
            InsertResult::Success { record }
        }
    }

    /// Unlinks the first (and, names being unique, only) record named `key`;
    /// an absent key is an ordinary `NotFound`, not an error.  Logs the
    /// operation note, then the write-lock bracket.
    pub fn delete(&mut self, key: &str, priority: u32) -> (result: DeleteResult)
        requires
            old(self).wf(),
        ensures
            final(self).wf(),
            logged_op(
                old(self).logger,
                final(self).logger,
                priority,
                delete_note(key@),
                LockType::Write,
            ),
            ({
                let pre = old(self)@;
                if has_name(pre, key@) {
                    &&& final(self)@ == pre.remove(first_index(pre, key@))
                    &&& (match result {
                        DeleteResult::Success { record } => record@ == pre[first_index(pre, key@)],
                        _ => false,
                    })
                } else {
                    &&& final(self)@ == pre
                    &&& (match result {
                        DeleteResult::NotFound { hash } => hash == hash_of_name(key@),
                        _ => false,
                    })
                }
            }),
    {
        let hashed_val = Self::hash_of_key(key);
        let note = build_note("DELETE,", hashed_val, key, None);
        proof {
            assert(note@ =~= delete_note(key@));
        }
        let ghost l0 = self.logger;
        self.logger.log_id(priority, LogMessage::Custom(note));
        let ghost l1 = self.logger;
        self.logger.log_id(priority, LogMessage::Acquire(LockType::Write));
        let ghost l2 = self.logger;
        let key_owned = key.to_owned();
        let removed = chain_delete(&mut self.head, hashed_val, &key_owned);
        proof {
            if has_name(old(self)@, key@) {
                lemma_has_name_index(old(self)@, key@);
                lemma_records_wf_remove(old(self)@, first_index(old(self)@, key@));
            }
        }
        self.logger.log_id(priority, LogMessage::Release(LockType::Write));
        proof {
            crate::logger::lemma_three_events(
                l0,
                l1,
                l2,
                self.logger,
                priority,
                delete_note(key@),
                LockType::Write,
            );
        }
        match removed {
            Some(record) => DeleteResult::Success { record },
            None => DeleteResult::NotFound { hash: hashed_val },
        }
    }

    /// Overwrites, in place, the salary of the record named `key`; the hash
    /// and name are immutable.  Logs the operation note, then the write-lock
    /// bracket.
    pub fn update_salary(&mut self, key: &str, value: u32, priority: u32) -> (result: UpdateResult)
        requires
            old(self).wf(),
        ensures
            final(self).wf(),
            logged_op(
                old(self).logger,
                final(self).logger,
                priority,
                update_note(key@, value),
                LockType::Write,
            ),
            ({
                let pre = old(self)@;
                if has_name(pre, key@) {
                    let at = first_index(pre, key@);
                    let renewed = RecordView {
                        hash: pre[at].hash,
                        name: pre[at].name,
                        salary: value,
                    };
                    &&& final(self)@ == pre.update(at, renewed)
                    &&& (match result {
                        UpdateResult::Success { old_record, new_record } => {
                            &&& old_record@ == pre[at]
                            &&& new_record@ == renewed
                        },
                        _ => false,
                    })
                } else {
                    &&& final(self)@ == pre
                    &&& (match result {
                        UpdateResult::NotFound { hash } => hash == hash_of_name(key@),
                        _ => false,
                    })
                }
            }),
    {
        let hashed_val = Self::hash_of_key(key);
        let note = build_note("UPDATE,", hashed_val, key, Some(value));
        proof {
            assert(note@ =~= update_note(key@, value));
        }
        let ghost l0 = self.logger;
        self.logger.log_id(priority, LogMessage::Custom(note));
        let ghost l1 = self.logger;
        self.logger.log_id(priority, LogMessage::Acquire(LockType::Write));
        let ghost l2 = self.logger;
        let key_owned = key.to_owned();
        let updated = chain_update(&mut self.head, hashed_val, &key_owned, value);
        proof {
            if has_name(old(self)@, key@) {
                lemma_has_name_index(old(self)@, key@);
                let at = first_index(old(self)@, key@);
                lemma_records_wf_update(
                    old(self)@,
                    at,
                    RecordView {
                        hash: old(self)@[at].hash,
                        name: old(self)@[at].name,
                        salary: value,
                    },
                );
            }
        }
        self.logger.log_id(priority, LogMessage::Release(LockType::Write));
        proof {
            crate::logger::lemma_three_events(
                l0,
                l1,
                l2,
                self.logger,
                priority,
                update_note(key@, value),
                LockType::Write,
            );
        }
        match updated {
            Some((old_record, new_record)) => UpdateResult::Success { old_record, new_record },
            None => UpdateResult::NotFound { hash: hashed_val },
        }
    }

    /// Looks the record named `key` up without touching the chain.  Logs the
    /// operation note, then the read-lock bracket.
    pub fn search(&mut self, key: &str, priority: u32) -> (result: SearchResult)
        requires
            old(self).wf(),
        ensures
            final(self).wf(),
            final(self)@ == old(self)@,
            logged_op(
                old(self).logger,
                final(self).logger,
                priority,
                search_note(key@),
                LockType::Read,
            ),
            ({
                let pre = old(self)@;
                if has_name(pre, key@) {
                    match result {
                        SearchResult::Found { record } => record@ == pre[first_index(pre, key@)],
                        _ => false,
                    }
                } else {
                    match result {
                        SearchResult::NotFound { name } => name@ == key@,
                        _ => false,
                    }
                }
            }),
    {
        let hashed_val = Self::hash_of_key(key);
        let note = build_note("SEARCH,", hashed_val, key, None);
        proof {
            assert(note@ =~= search_note(key@));
        }
        let ghost l0 = self.logger;
        self.logger.log_id(priority, LogMessage::Custom(note));
        let ghost l1 = self.logger;
        self.logger.log_id(priority, LogMessage::Acquire(LockType::Read));
        let ghost l2 = self.logger;
        let key_owned = key.to_owned();
        let found = match chain_find(&self.head, hashed_val, &key_owned) {
            Some(matched) => Some(matched.duplicate()),
            None => None,
        };
        self.logger.log_id(priority, LogMessage::Release(LockType::Read));
        proof {
            crate::logger::lemma_three_events(
                l0,
                l1,
                l2,
                self.logger,
                priority,
                search_note(key@),
                LockType::Read,
            );
        }
        match found {
            Some(record) => SearchResult::Found { record },
            None => SearchResult::NotFound { name: key.to_owned() },
        }
    }

    /// The snapshot: an independent copy of all records, ordered by
    /// ascending hash, ties kept in chain order.  Logs the `PRINT` note, then
    /// the read-lock bracket.
    pub fn get_all_records(&mut self, priority: u32) -> (records: Vec<HashRecord>)
        requires
            old(self).wf(),
        ensures
            final(self).wf(),
            final(self)@ == old(self)@,
            records.deep_view() == sort_by_hash(old(self)@),
            logged_op(
                old(self).logger,
                final(self).logger,
                priority,
                print_note(),
                LockType::Read,
            ),
    {
        let ghost l0 = self.logger;
        let note = String::from_str("PRINT");
        proof {
            assert(note@ == print_note());
        }
        self.logger.log_id(priority, LogMessage::Custom(note));
        let ghost l1 = self.logger;
        self.logger.log_id(priority, LogMessage::Acquire(LockType::Read));
        let ghost l2 = self.logger;
        let records = self.snapshot_unlogged();
        self.logger.log_id(priority, LogMessage::Release(LockType::Read));
        proof {
            crate::logger::lemma_three_events(
                l0,
                l1,
                l2,
                self.logger,
                priority,
                print_note(),
                LockType::Read,
            );
        }
        records
    }

    /// Queues the final summary: both lock counters and the snapshot, one
    /// `hash,name,salary` line per record.  The summary is a raw line, not an
    /// event, so counters and history stay put.
    pub fn log_summary(&mut self)
        requires
            old(self).wf(),
        ensures
            final(self).wf(),
            final(self)@ == old(self)@,
            final(self).logger.queue@.len() == old(self).logger.queue@.len() + 1,
            forall|i: int|
                0 <= i < old(self).logger.queue@.len() ==> final(self).logger.queue@[i] == old(
                    self,
                ).logger.queue@[i],
            final(self).logger.queue@.last()@ == summary_text(
                old(self).logger.acquisitions,
                old(self).logger.releases,
                old(self)@,
            ),
            final(self).logger.acquisitions == old(self).logger.acquisitions,
            final(self).logger.releases == old(self).logger.releases,
            final(self).logger.history == old(self).logger.history,
    {
        let records = self.snapshot_unlogged();
        let mut summary = String::new();
        summary.append("\nNumber of lock acquisitions: ");
        push_decimal(&mut summary, self.logger.get_acquisition_count() as u128);
        summary.append("\nNumber of lock releases: ");
        push_decimal(&mut summary, self.logger.get_release_count() as u128);
        summary.append("\nFinal Table:\n");
        let table_text = join_from(&records, 0);
        let summary = summary.concat(table_text.as_str());
        proof {
            assert(records.deep_view().skip(0) =~= records.deep_view());
            assert(summary@ =~= summary_text(
                self.logger.acquisitions,
                self.logger.releases,
                self@,
            ));
        }
        self.logger.log_str(summary.as_str());
    }

    /// The snapshot without log events; the final summary uses it after the
    /// audit trail is closed.
    fn snapshot_unlogged(&self) -> (records: Vec<HashRecord>)
        ensures
            records.deep_view() == sort_by_hash(self@),
    {
        let mut collected: Vec<HashRecord> = Vec::new();
        chain_collect(&self.head, &mut collected);
        proof {
            assert(collected.deep_view() =~= self@);
        }
        sort_records(&collected)
    }
}

} // verus!

