//! What the operator boundary reads: health and counts.
//!
//! Receive, Process and Send write into a snapshot asynchronously; a
//! surface reads whatever is here. A record at `xmip:///edge-01/transport/ftp`
//! sits beneath `xmip:///edge-01/transport` and beneath `xmip:///edge-01`,
//! so asking for a node gets everything the node holds: health up the tree
//! is the worst beneath, and a count up the tree is the sum beneath.
//!
//! The records are held sorted by scope, in byte order, one per scope; the
//! counts one per scope and kind, sorted by scope and then kind.

use vstd::prelude::*;
use vstd::string::*;
use crate::counted::{Counted, counted_rank};
use crate::health::{Health, Standing, health_rank, standing_key};
use crate::order::{Key, KeyView, holds_position, is_worst_first, key_order, key_view, keys_view, worst_first_positions};
use crate::scope::{Scope, at_or_beneath, lemma_beneath_transitive, law_contains_itself_at};
use crate::text::{
    bytes_of, lemma_bytes_determine_text, lemma_lex_order_range, lemma_lex_order_transitive,
    lex_order, order_bytes, same_text,
};

verus! {

/// The severity a paused scope publishes. A category, not a measurement: an
/// operator's deliberate stop is the same hold however long it lasts.
pub const PAUSED_SEVERITY: u8 = 30;

/// One scope's health, how far from healthy it is, the one line that
/// explains it, and when it was seen.
#[derive(Clone, Debug, PartialEq, Eq)]
pub struct HealthRecord {
    pub scope: String,
    pub health: Health,
    /// 0 to 100, shading the mood. Fine is 0; done at 100 is as bad as it
    /// gets.
    pub severity: u8,
    pub evidence: String,
    pub observed_unix_nanos: i64,
}

impl HealthRecord {
    /// The same record, field for field.
    pub(crate) fn duplicate(&self) -> (r: HealthRecord)
        ensures
            r == *self,
    {
        HealthRecord {
            scope: self.scope.clone(),
            health: self.health,
            severity: self.severity,
            evidence: self.evidence.clone(),
            observed_unix_nanos: self.observed_unix_nanos,
        }
    }
}

/// One count over a window, and when it was taken.
#[derive(Clone, Debug, PartialEq, Eq)]
pub struct Count {
    pub scope: String,
    pub counted: Counted,
    pub value: u64,
    pub window_start_unix_nanos: i64,
    pub window_end_unix_nanos: i64,
    pub observed_unix_nanos: i64,
}

impl Count {
    /// The same count, field for field.
    pub(crate) fn duplicate(&self) -> (r: Count)
        ensures
            r == *self,
    {
        Count {
            scope: self.scope.clone(),
            counted: self.counted,
            value: self.value,
            window_start_unix_nanos: self.window_start_unix_nanos,
            window_end_unix_nanos: self.window_end_unix_nanos,
            observed_unix_nanos: self.observed_unix_nanos,
        }
    }
}

// ---------------------------------------------------------------------------
// Records held one per scope, sorted by scope.

/// The order of two scopes: byte order.
pub open spec fn scope_order(a: Seq<char>, b: Seq<char>) -> int {
    lex_order(bytes_of(a), bytes_of(b))
}

/// Records strictly increasing by scope: one per scope.
pub open spec fn records_sorted(s: Seq<HealthRecord>) -> bool {
    forall|i: int, j: int|
        #![trigger s[i], s[j]]
        0 <= i < j < s.len() ==> scope_order(s[i].scope@, s[j].scope@) < 0
}

/// The records, by scope.
pub open spec fn record_map(s: Seq<HealthRecord>) -> Map<Seq<char>, HealthRecord>
    decreases s.len(),
{
    if s.len() == 0 {
        Map::empty()
    } else {
        record_map(s.drop_last()).insert(s.last().scope@, s.last())
    }
}

/// Scopes stand in byte order, one way round or the other, and together
/// only when they are the same.
proof fn lemma_scope_order(a: Seq<char>, b: Seq<char>)
    ensures
        -1 <= scope_order(a, b) <= 1,
        scope_order(a, b) == -scope_order(b, a),
        scope_order(a, b) == 0 <==> a == b,
{
    lemma_lex_order_range(bytes_of(a), bytes_of(b));
    lemma_bytes_determine_text(a, b);
}

/// Byte order of scopes is transitive.
proof fn lemma_scope_order_transitive(a: Seq<char>, b: Seq<char>, c: Seq<char>)
    requires
        scope_order(a, b) < 0,
        scope_order(b, c) < 0,
    ensures
        scope_order(a, c) < 0,
{
    lemma_lex_order_transitive(bytes_of(a), bytes_of(b), bytes_of(c));
}

/// In sorted records each scope is held once, and the map holds it.
pub proof fn lemma_record_map_at(s: Seq<HealthRecord>, i: int)
    requires
        records_sorted(s),
        0 <= i < s.len(),
    ensures
        record_map(s).contains_key(s[i].scope@),
        record_map(s)[s[i].scope@] == s[i],
    decreases s.len(),
{
    if i < s.len() - 1 {
        let d = s.drop_last();
        assert(d[i] == s[i]);
        assert(records_sorted(d)) by {
            assert forall|a: int, b: int| #![trigger d[a], d[b]] 0 <= a < b < d.len() implies scope_order(
                d[a].scope@,
                d[b].scope@,
            ) < 0 by {
                assert(d[a] == s[a] && d[b] == s[b]);
            }
        }
        lemma_record_map_at(d, i);
        lemma_scope_order(s[i].scope@, s.last().scope@);
        assert(scope_order(s[i].scope@, s[s.len() - 1].scope@) < 0);
    }
}

/// A scope the map holds is held at some position.
pub proof fn lemma_record_map_has(s: Seq<HealthRecord>, k: Seq<char>)
    requires
        record_map(s).contains_key(k),
    ensures
        exists|i: int| 0 <= i < s.len() && #[trigger] s[i].scope@ == k,
    decreases s.len(),
{
    if s.last().scope@ == k {
        assert(s[s.len() - 1].scope@ == k);
    } else {
        let d = s.drop_last();
        lemma_record_map_has(d, k);
        let i = choose|i: int| 0 <= i < d.len() && #[trigger] d[i].scope@ == k;
        assert(s[i] == d[i]);
    }
}

/// Put a record in, replacing the one at its scope.
#[verifier::spinoff_prover]
fn upsert_record(v: &mut Vec<HealthRecord>, rec: HealthRecord)
    requires
        records_sorted(old(v)@),
    ensures
        records_sorted(final(v)@),
        record_map(final(v)@) == record_map(old(v)@).insert(rec.scope@, rec),
{
    let ghost s = v@;
    let ghost k = rec.scope@;
    let mut p: usize = 0;
    while p < v.len() && order_bytes(v[p].scope.as_str().as_bytes(), rec.scope.as_str().as_bytes())
        < 0
        invariant
            p <= v@.len(),
            v@ == s,
            k == rec.scope@,
            records_sorted(s),
            forall|q: int| 0 <= q < p ==> scope_order(#[trigger] s[q].scope@, k) < 0,
        decreases v@.len() - p,
    {
        p = p + 1;
    }
    let found = p < v.len() && order_bytes(
        v[p].scope.as_str().as_bytes(),
        rec.scope.as_str().as_bytes(),
    ) == 0;
    if found {
        proof {
            lemma_scope_order(s[p as int].scope@, k);
            lemma_record_replace_at(s, p as int, rec);
        }
        v.set(p, rec);
    } else {
        proof {
            if p < s.len() {
                lemma_scope_order(k, s[p as int].scope@);
                assert forall|q: int| p <= q < s.len() implies scope_order(k, #[trigger] s[q].scope@) < 0 by {
                    if q > p {
                        assert(scope_order(s[p as int].scope@, s[q].scope@) < 0);
                        lemma_scope_order_transitive(k, s[p as int].scope@, s[q].scope@);
                    }
                }
            }
            lemma_record_insert_at(s, p as int, rec);
        }
        v.insert(p, rec);
    }
}

/// Replacing the record at a scope keeps the records sorted and replaces
/// that scope's record.
proof fn lemma_record_replace_at(s: Seq<HealthRecord>, p: int, rec: HealthRecord)
    requires
        records_sorted(s),
        0 <= p < s.len(),
        s[p].scope@ == rec.scope@,
    ensures
        records_sorted(s.update(p, rec)),
        record_map(s.update(p, rec)) == record_map(s).insert(rec.scope@, rec),
{
    let k = rec.scope@;
    let t = s.update(p, rec);
    assert forall|i: int, j: int| #![trigger t[i], t[j]] 0 <= i < j < t.len() implies scope_order(
        t[i].scope@,
        t[j].scope@,
    ) < 0 by {
        assert(t[i].scope@ == s[i].scope@ && t[j].scope@ == s[j].scope@);
        assert(scope_order(s[i].scope@, s[j].scope@) < 0);
    }
    let m = record_map(s).insert(k, rec);
    assert forall|key: Seq<char>| #[trigger] m.contains_key(key) implies record_map(t).contains_key(key) && record_map(t)[key] == m[key] by {
        if key == k {
            lemma_record_map_at(t, p);
        } else {
            lemma_record_map_has(s, key);
            let i = choose|i: int| 0 <= i < s.len() && #[trigger] s[i].scope@ == key;
            lemma_record_map_at(s, i);
            lemma_record_map_at(t, i);
        }
    }
    assert forall|key: Seq<char>| #[trigger] record_map(t).contains_key(key) implies m.contains_key(key) by {
        lemma_record_map_has(t, key);
        let i = choose|i: int| 0 <= i < t.len() && #[trigger] t[i].scope@ == key;
        if i != p {
            lemma_record_map_at(s, i);
        }
    }
    assert(record_map(t) =~= m);
}

/// Inserting a record at its place keeps the records sorted and adds its
/// scope.
proof fn lemma_record_insert_at(s: Seq<HealthRecord>, p: int, rec: HealthRecord)
    requires
        records_sorted(s),
        0 <= p <= s.len(),
        forall|q: int| 0 <= q < p ==> scope_order(#[trigger] s[q].scope@, rec.scope@) < 0,
        forall|q: int| p <= q < s.len() ==> scope_order(rec.scope@, #[trigger] s[q].scope@) < 0,
    ensures
        records_sorted(s.insert(p, rec)),
        record_map(s.insert(p, rec)) == record_map(s).insert(rec.scope@, rec),
{
    let k = rec.scope@;
    let t = s.insert(p, rec);
    assert forall|i: int, j: int| #![trigger t[i], t[j]] 0 <= i < j < t.len() implies scope_order(
        t[i].scope@,
        t[j].scope@,
    ) < 0 by {
        if j < p {
            assert(t[i] == s[i] && t[j] == s[j]);
        } else if j == p {
            assert(t[i] == s[i]);
        } else if i < p {
            assert(t[i] == s[i] && t[j] == s[j - 1]);
            lemma_scope_order_transitive(s[i].scope@, k, s[j - 1].scope@);
        } else if i == p {
            assert(t[j] == s[j - 1]);
        } else {
            assert(t[i] == s[i - 1] && t[j] == s[j - 1]);
        }
    }
    let m = record_map(s).insert(k, rec);
    assert forall|key: Seq<char>| #[trigger] m.contains_key(key) implies record_map(t).contains_key(key) && record_map(t)[key] == m[key] by {
        if key == k {
            lemma_record_map_at(t, p);
        } else {
            lemma_record_map_has(s, key);
            let i = choose|i: int| 0 <= i < s.len() && #[trigger] s[i].scope@ == key;
            lemma_record_map_at(s, i);
            if i < p {
                assert(t[i] == s[i]);
                lemma_record_map_at(t, i);
            } else {
                assert(t[i + 1] == s[i]);
                lemma_record_map_at(t, i + 1);
            }
        }
    }
    assert forall|key: Seq<char>| #[trigger] record_map(t).contains_key(key) implies m.contains_key(key) by {
        lemma_record_map_has(t, key);
        let i = choose|i: int| 0 <= i < t.len() && #[trigger] t[i].scope@ == key;
        if i < p {
            assert(t[i] == s[i]);
            lemma_record_map_at(s, i);
        } else if i > p {
            assert(t[i] == s[i - 1]);
            lemma_record_map_at(s, i - 1);
        }
    }
    assert(record_map(t) =~= m);
}

// ---------------------------------------------------------------------------
// Counts held one per scope and kind, sorted by scope and then kind.

/// What a count is held by: its scope and its kind.
pub open spec fn count_key(c: Count) -> (Seq<char>, Counted) {
    (c.scope@, c.counted)
}

/// The order of two counts: by scope, then by kind.
pub open spec fn count_order(a: Count, b: Count) -> int {
    if scope_order(a.scope@, b.scope@) != 0 {
        scope_order(a.scope@, b.scope@)
    } else if counted_rank(a.counted) < counted_rank(b.counted) {
        -1
    } else if counted_rank(a.counted) > counted_rank(b.counted) {
        1
    } else {
        0
    }
}

/// Counts strictly increasing by scope and kind: one per scope and kind.
pub open spec fn counts_sorted(s: Seq<Count>) -> bool {
    forall|i: int, j: int| #![trigger s[i], s[j]] 0 <= i < j < s.len() ==> count_order(s[i], s[j]) < 0
}

/// The counts, by scope and kind.
pub open spec fn count_map(s: Seq<Count>) -> Map<(Seq<char>, Counted), Count>
    decreases s.len(),
{
    if s.len() == 0 {
        Map::empty()
    } else {
        count_map(s.drop_last()).insert(count_key(s.last()), s.last())
    }
}

/// Counts stand by scope and then kind, one way round or the other, and
/// together only when they share both.
proof fn lemma_count_order(a: Count, b: Count)
    ensures
        -1 <= count_order(a, b) <= 1,
        count_order(a, b) == -count_order(b, a),
        count_order(a, b) == 0 <==> count_key(a) == count_key(b),
{
    lemma_scope_order(a.scope@, b.scope@);
}

/// The order of counts is transitive.
proof fn lemma_count_order_transitive(a: Count, b: Count, c: Count)
    requires
        count_order(a, b) < 0,
        count_order(b, c) < 0,
    ensures
        count_order(a, c) < 0,
{
    lemma_scope_order(a.scope@, b.scope@);
    lemma_scope_order(b.scope@, c.scope@);
    lemma_scope_order(a.scope@, c.scope@);
    if scope_order(a.scope@, b.scope@) < 0 && scope_order(b.scope@, c.scope@) < 0 {
        lemma_scope_order_transitive(a.scope@, b.scope@, c.scope@);
    }
}

/// In sorted counts each scope and kind is held once, and the map holds
/// it.
pub proof fn lemma_count_map_at(s: Seq<Count>, i: int)
    requires
        counts_sorted(s),
        0 <= i < s.len(),
    ensures
        count_map(s).contains_key(count_key(s[i])),
        count_map(s)[count_key(s[i])] == s[i],
    decreases s.len(),
{
    if i < s.len() - 1 {
        let d = s.drop_last();
        assert(d[i] == s[i]);
        assert(counts_sorted(d)) by {
            assert forall|a: int, b: int| #![trigger d[a], d[b]] 0 <= a < b < d.len() implies count_order(
                d[a],
                d[b],
            ) < 0 by {
                assert(d[a] == s[a] && d[b] == s[b]);
            }
        }
        lemma_count_map_at(d, i);
        lemma_count_order(s[i], s.last());
        assert(count_order(s[i], s[s.len() - 1]) < 0);
    }
}

/// A scope and kind the map holds is held at some position.
pub proof fn lemma_count_map_has(s: Seq<Count>, k: (Seq<char>, Counted))
    requires
        count_map(s).contains_key(k),
    ensures
        exists|i: int| 0 <= i < s.len() && #[trigger] count_key(s[i]) == k,
    decreases s.len(),
{
    if count_key(s.last()) == k {
        assert(count_key(s[s.len() - 1]) == k);
    } else {
        let d = s.drop_last();
        lemma_count_map_has(d, k);
        let i = choose|i: int| 0 <= i < d.len() && #[trigger] count_key(d[i]) == k;
        assert(s[i] == d[i]);
    }
}

/// The order of two counts.
fn compare_counts(a: &Count, b: &Count) -> (r: i8)
    ensures
        r == count_order(*a, *b),
{
    proof {
        lemma_scope_order(a.scope@, b.scope@);
    }
    let by_scope = order_bytes(a.scope.as_str().as_bytes(), b.scope.as_str().as_bytes());
    if by_scope != 0 {
        by_scope
    } else if a.counted.rank() < b.counted.rank() {
        -1
    } else if a.counted.rank() > b.counted.rank() {
        1
    } else {
        0
    }
}

/// Put a count in, replacing the one at its scope and kind.
#[verifier::spinoff_prover]
#[verifier::rlimit(40)]
fn upsert_count(v: &mut Vec<Count>, count: Count)
    requires
        counts_sorted(old(v)@),
    ensures
        counts_sorted(final(v)@),
        count_map(final(v)@) == count_map(old(v)@).insert(count_key(count), count),
{
    let ghost s = v@;
    let ghost k = count_key(count);
    let mut p: usize = 0;
    while p < v.len() && compare_counts(&v[p], &count) < 0
        invariant
            p <= v@.len(),
            v@ == s,
            counts_sorted(s),
            forall|q: int| 0 <= q < p ==> count_order(#[trigger] s[q], count) < 0,
        decreases v@.len() - p,
    {
        p = p + 1;
    }
    let found = p < v.len() && compare_counts(&v[p], &count) == 0;
    proof {
        assert forall|q: int| p <= q < s.len() implies count_order(count, #[trigger] s[q]) <= 0 by {
            lemma_count_order(s[p as int], count);
            if q > p {
                lemma_count_order(count, s[p as int]);
                lemma_count_order(count, s[q]);
                lemma_count_order(s[p as int], s[q]);
                if count_order(count, s[p as int]) < 0 {
                    lemma_count_order_transitive(count, s[p as int], s[q]);
                } else {
                    assert(count_key(s[p as int]) == k);
                    assert(count_order(s[p as int], s[q]) < 0);
                    assert(scope_order(count.scope@, s[q].scope@) == scope_order(
                        s[p as int].scope@,
                        s[q].scope@,
                    ));
                }
            }
        }
    }
    if found {
        proof {
            lemma_count_order(s[p as int], count);
        }
        v.set(p, count);
        proof {
            let t = v@;
            assert forall|i: int, j: int| #![trigger t[i], t[j]] 0 <= i < j < t.len() implies count_order(
                t[i],
                t[j],
            ) < 0 by {
                if i == p {
                    lemma_count_order(s[p as int], s[j]);
                    lemma_count_order(count, s[j]);
                    assert(scope_order(count.scope@, s[j].scope@) == scope_order(
                        s[p as int].scope@,
                        s[j].scope@,
                    ));
                } else if j == p {
                    lemma_count_order(s[i], s[p as int]);
                    lemma_count_order(s[i], count);
                    assert(scope_order(s[i].scope@, count.scope@) == scope_order(
                        s[i].scope@,
                        s[p as int].scope@,
                    ));
                }
            }
            assert(counts_sorted(t));
            let m = count_map(s).insert(k, count);
            assert forall|key: (Seq<char>, Counted)| #[trigger] m.contains_key(key) implies count_map(t).contains_key(key) && count_map(t)[key] == m[key] by {
                if key == k {
                    lemma_count_map_at(t, p as int);
                } else {
                    lemma_count_map_has(s, key);
                    let i = choose|i: int| 0 <= i < s.len() && #[trigger] count_key(s[i]) == key;
                    lemma_count_map_at(s, i);
                    lemma_count_map_at(t, i);
                }
            }
            assert forall|key: (Seq<char>, Counted)| #[trigger] count_map(t).contains_key(key) implies m.contains_key(key) by {
                lemma_count_map_has(t, key);
                let i = choose|i: int| 0 <= i < t.len() && #[trigger] count_key(t[i]) == key;
                if i != p {
                    lemma_count_map_at(s, i);
                }
            }
            assert(count_map(t) =~= m);
        }
    } else {
        proof {
            if p < s.len() {
                lemma_count_order(count, s[p as int]);
            }
        }
        v.insert(p, count);
        proof {
            let t = v@;
            assert forall|i: int, j: int| #![trigger t[i], t[j]] 0 <= i < j < t.len() implies count_order(
                t[i],
                t[j],
            ) < 0 by {
                if j < p {
                    assert(t[i] == s[i] && t[j] == s[j]);
                } else if j == p {
                    assert(t[i] == s[i]);
                } else if i < p {
                    assert(t[i] == s[i] && t[j] == s[j - 1]);
                    lemma_count_order(count, s[j - 1]);
                    lemma_count_order_transitive(s[i], count, s[j - 1]);
                } else if i == p {
                    assert(t[j] == s[j - 1]);
                    lemma_count_order(count, s[j - 1]);
                } else {
                    assert(t[i] == s[i - 1] && t[j] == s[j - 1]);
                }
            }
            assert(counts_sorted(t));
            let m = count_map(s).insert(k, count);
            assert forall|key: (Seq<char>, Counted)| #[trigger] m.contains_key(key) implies count_map(t).contains_key(key) && count_map(t)[key] == m[key] by {
                if key == k {
                    lemma_count_map_at(t, p as int);
                } else {
                    lemma_count_map_has(s, key);
                    let i = choose|i: int| 0 <= i < s.len() && #[trigger] count_key(s[i]) == key;
                    lemma_count_map_at(s, i);
                    if i < p {
                        assert(t[i] == s[i]);
                        lemma_count_map_at(t, i);
                    } else {
                        assert(t[i + 1] == s[i]);
                        lemma_count_map_at(t, i + 1);
                    }
                }
            }
            assert forall|key: (Seq<char>, Counted)| #[trigger] count_map(t).contains_key(key) implies m.contains_key(key) by {
                lemma_count_map_has(t, key);
                let i = choose|i: int| 0 <= i < t.len() && #[trigger] count_key(t[i]) == key;
                if i < p {
                    assert(t[i] == s[i]);
                    lemma_count_map_at(s, i);
                } else if i > p {
                    assert(t[i] == s[i - 1]);
                    lemma_count_map_at(s, i - 1);
                }
            }
            assert(count_map(t) =~= m);
        }
    }
}

// ---------------------------------------------------------------------------
// The snapshot.

/// Whether `candidate` is `scope` or sits beneath it in the tree, by the
/// one containment rule: [`Scope::contains`] on the scopes the two texts
/// read as.
fn beneath(candidate: &str, scope: &str) -> (r: bool)
    ensures
        r == at_or_beneath(candidate.spec_bytes(), scope.spec_bytes()),
{
    Scope::new(scope).contains(Scope::new(candidate))
}

/// How many of the records are at or beneath `scope`.
pub open spec fn count_beneath(s: Seq<HealthRecord>, scope: Seq<u8>) -> nat
    decreases s.len(),
{
    if s.len() == 0 {
        0
    } else {
        count_beneath(s.drop_last(), scope) + if at_or_beneath(bytes_of(s.last().scope@), scope) {
            1nat
        } else {
            0nat
        }
    }
}

/// The scopes of `records` at or beneath `scope`.
pub open spec fn scopes_beneath(records: Map<Seq<char>, HealthRecord>, scope: Seq<u8>) -> Set<Seq<char>> {
    Set::new(|k: Seq<char>| records.contains_key(k) && at_or_beneath(bytes_of(k), scope))
}

/// Whether `record` is what a pause by `who` at `now` publishes for `scope`:
/// `Paused` at the paused severity, the operator named in the evidence.
pub open spec fn pause_record(record: HealthRecord, scope: Seq<char>, who: Seq<char>, now: i64) -> bool {
    &&& record.scope@ == scope
    &&& record.health == Health::Paused
    &&& record.severity == PAUSED_SEVERITY
    &&& record.evidence@ == "paused by "@ + who
    &&& record.observed_unix_nanos == now
}

/// Whether the sorted records hold a record at exactly `scope`.
fn holds_scope(records: &Vec<HealthRecord>, scope: &str) -> (r: bool)
    requires
        records_sorted(records@),
    ensures
        r == record_map(records@).contains_key(scope@),
{
    let mut i: usize = 0;
    while i < records.len()
        invariant
            i <= records@.len(),
            records_sorted(records@),
            forall|q: int| 0 <= q < i ==> (#[trigger] records@[q]).scope@ != scope@,
        decreases records@.len() - i,
    {
        if same_text(records[i].scope.as_str(), scope) {
            proof {
                lemma_record_map_at(records@, i as int);
            }
            return true;
        }
        i = i + 1;
    }
    proof {
        if record_map(records@).contains_key(scope@) {
            lemma_record_map_has(records@, scope@);
        }
    }
    false
}

/// The published state of a node. One per node, written by the node.
#[derive(Clone, Debug)]
pub struct Snapshot {
    health: Vec<HealthRecord>,
    counts: Vec<Count>,
    /// What a paused scope looked like before it was paused, so resume puts
    /// it back rather than guessing.
    paused: Vec<HealthRecord>,
}

impl Snapshot {
    /// The published health records, in scope order.
    pub closed spec fn health_seq(&self) -> Seq<HealthRecord> {
        self.health@
    }

    /// The counts, in scope order and then kind order.
    pub closed spec fn count_seq(&self) -> Seq<Count> {
        self.counts@
    }

    /// The records of the paused scopes as they were before the pause, in
    /// scope order.
    pub closed spec fn paused_seq(&self) -> Seq<HealthRecord> {
        self.paused@
    }

    /// The published health, by scope.
    pub open spec fn health_map(&self) -> Map<Seq<char>, HealthRecord> {
        record_map(self.health_seq())
    }

    /// The counts, by scope and kind.
    pub open spec fn counts_map(&self) -> Map<(Seq<char>, Counted), Count> {
        count_map(self.count_seq())
    }

    /// What each paused scope looked like before it was paused, by scope.
    pub open spec fn paused_map(&self) -> Map<Seq<char>, HealthRecord> {
        record_map(self.paused_seq())
    }

    /// One record per scope and one count per scope and kind, each kept in
    /// order.
    pub open spec fn wf(&self) -> bool {
        &&& records_sorted(self.health_seq())
        &&& counts_sorted(self.count_seq())
        &&& records_sorted(self.paused_seq())
    }

    /// Whether a scope is paused: itself, or an ancestor of it.
    pub open spec fn paused_at(&self, scope: Seq<u8>) -> bool {
        exists|k: Seq<char>|
            #![trigger self.paused_map().contains_key(k)]
            self.paused_map().contains_key(k) && at_or_beneath(scope, bytes_of(k))
    }

    /// An empty snapshot.
    pub fn new() -> (r: Self)
        ensures
            r.wf(),
            r.health_seq() == Seq::<HealthRecord>::empty(),
            r.count_seq() == Seq::<Count>::empty(),
            r.paused_seq() == Seq::<HealthRecord>::empty(),
    {
        Snapshot { health: Vec::new(), counts: Vec::new(), paused: Vec::new() }
    }

    /// Record a scope's health. Replaces what was there for that scope. A
    /// paused scope stays paused: the record is kept for resume and the
    /// published state does not change until then.
    pub fn record_health(&mut self, record: HealthRecord)
        requires
            old(self).wf(),
        ensures
            final(self).wf(),
            final(self).counts_map() == old(self).counts_map(),
            old(self).paused_map().contains_key(record.scope@) ==> {
                &&& final(self).paused_map() == old(self).paused_map().insert(record.scope@, record)
                &&& final(self).health_map() == old(self).health_map()
            },
            !old(self).paused_map().contains_key(record.scope@) ==> {
                &&& final(self).health_map() == old(self).health_map().insert(record.scope@, record)
                &&& final(self).paused_map() == old(self).paused_map()
            },
    {
        let mut held = false;
        let mut i: usize = 0;
        while i < self.paused.len()
            invariant
                i <= self.paused@.len(),
                records_sorted(self.paused@),
                held ==> record_map(self.paused@).contains_key(record.scope@),
                !held ==> forall|q: int| 0 <= q < i ==> (#[trigger] self.paused@[q]).scope@ != record.scope@,
            decreases self.paused@.len() - i,
        {
            if same_text(self.paused[i].scope.as_str(), record.scope.as_str()) {
                proof {
                    lemma_record_map_at(self.paused@, i as int);
                }
                held = true;
            }
            i = i + 1;
        }
        proof {
            if !held && record_map(self.paused@).contains_key(record.scope@) {
                lemma_record_map_has(self.paused@, record.scope@);
            }
        }
        if held {
            upsert_record(&mut self.paused, record);
        } else {
            upsert_record(&mut self.health, record);
        }
    }

    /// Whether a scope is paused — itself or an ancestor of it.
    pub fn is_paused(&self, scope: &str) -> (r: bool)
        requires
            self.wf(),
        ensures
            r == self.paused_at(scope.spec_bytes()),
    {
        let mut i: usize = 0;
        while i < self.paused.len()
            invariant
                i <= self.paused@.len(),
                records_sorted(self.paused@),
                forall|q: int| 0 <= q < i ==> !at_or_beneath(scope.spec_bytes(), bytes_of(#[trigger] self.paused@[q].scope@)),
            decreases self.paused@.len() - i,
        {
            if beneath(scope, self.paused[i].scope.as_str()) {
                proof {
                    lemma_record_map_at(self.paused@, i as int);
                    assert(self.paused_map().contains_key(self.paused@[i as int].scope@));
                }
                return true;
            }
            i = i + 1;
        }
        proof {
            if self.paused_at(scope.spec_bytes()) {
                let k = choose|k: Seq<char>| #![trigger self.paused_map().contains_key(k)] self.paused_map().contains_key(k) && at_or_beneath(scope.spec_bytes(), bytes_of(k));
                lemma_record_map_has(self.paused@, k);
            }
        }
        false
    }

    /// Record a count. Replaces what was there for that scope and kind. A
    /// paused scope's counts are dropped — it is not doing anything.
    pub fn record_count(&mut self, count: Count)
        requires
            old(self).wf(),
        ensures
            final(self).wf(),
            final(self).health_map() == old(self).health_map(),
            final(self).paused_map() == old(self).paused_map(),
            old(self).paused_at(bytes_of(count.scope@)) ==> final(self).counts_map() == old(
                self,
            ).counts_map(),
            !old(self).paused_at(bytes_of(count.scope@)) ==> final(self).counts_map() == old(
                self,
            ).counts_map().insert(count_key(count), count),
    {
        if self.is_paused(count.scope.as_str()) {
            return;
        }
        upsert_count(&mut self.counts, count);
    }

    /// Every health record in the snapshot, in scope order.
    pub fn health_records(&self) -> (r: &[HealthRecord])
        ensures
            r@ == self.health_seq(),
    {
        self.health.as_slice()
    }

    /// Every count in the snapshot, in scope order and then kind order.
    pub fn all_counts(&self) -> (r: &[Count])
        ensures
            r@ == self.count_seq(),
    {
        self.counts.as_slice()
    }
}

impl Default for Snapshot {
    /// An empty snapshot.
    fn default() -> (r: Self)
        ensures
            r.wf(),
            r.health_seq() == Seq::<HealthRecord>::empty(),
            r.count_seq() == Seq::<Count>::empty(),
            r.paused_seq() == Seq::<HealthRecord>::empty(),
    {
        Snapshot::new()
    }
}

/// Whether `after` is `before` with everything at and beneath `scope`
/// paused by `who` at `now`: each published record there reads `Paused` at
/// [`PAUSED_SEVERITY`] with the operator in its evidence, the record it
/// replaced is kept for resume, and the counts of those scopes are gone.
/// Everything else is as it was.
pub open spec fn pause_of(
    before: Snapshot,
    after: Snapshot,
    scope: Seq<u8>,
    who: Seq<char>,
    now: i64,
) -> bool {
    let targets = scopes_beneath(before.health_map(), scope);
    &&& after.health_map().dom() == before.health_map().dom()
    &&& forall|k: Seq<char>|
        #![trigger after.health_map()[k]]
        before.health_map().contains_key(k) ==> if targets.contains(k) {
            pause_record(after.health_map()[k], k, who, now)
        } else {
            after.health_map()[k] == before.health_map()[k]
        }
    &&& after.paused_map() == before.health_map().restrict(targets).union_prefer_right(
        before.paused_map(),
    )
    &&& after.counts_map() == before.counts_map().restrict(
        Set::new(|key: (Seq<char>, Counted)| !targets.contains(key.0)),
    )
}

/// Whether `after` is `before` with everything paused at and beneath
/// `scope` resumed: each such record published again as it was before the
/// pause and no longer held, the rest as it was.
pub open spec fn resume_of(before: Snapshot, after: Snapshot, scope: Seq<u8>) -> bool {
    let targets = scopes_beneath(before.paused_map(), scope);
    &&& after.health_map() == before.health_map().union_prefer_right(
        before.paused_map().restrict(targets),
    )
    &&& after.paused_map() == before.paused_map().restrict(
        Set::new(|k: Seq<char>| !targets.contains(k)),
    )
    &&& after.counts_map() == before.counts_map()
}

impl Snapshot {
    /// Pause everything at and beneath a scope. Each affected record is set
    /// to `Paused` at [`PAUSED_SEVERITY`], its prior state kept for resume —
    /// a scope paused already keeps the state it had before it was first
    /// paused — and its counts stop. `who` names the operator, for the evidence line.
    /// Returns how many scopes it paused — zero when the scope names nothing.
    pub fn pause(&mut self, scope: &str, who: &str, now: i64) -> (r: usize)
        requires
            old(self).wf(),
        ensures
            final(self).wf(),
            pause_of(*old(self), *final(self), scope.spec_bytes(), who@, now),
            r == count_beneath(old(self).health_seq(), scope.spec_bytes()),
    {
        let ghost old_health = self.health@;
        let ghost old_paused = self.paused@;
        let ghost sb = scope.spec_bytes();
        let ghost h = record_map(old_health);
        let mut paused_count: usize = 0;
        let mut i: usize = 0;
        assert(old_health.take(0) =~= Seq::<HealthRecord>::empty());
        while i < self.health.len()
            invariant
                i <= self.health@.len(),
                self.health@.len() == old_health.len(),
                records_sorted(old_health),
                h == record_map(old_health),
                sb == scope.spec_bytes(),
                records_sorted(self.paused@),
                records_sorted(self.health@),
                counts_sorted(self.counts@),
                self.counts@ == old(self).counts@,
                forall|q: int|
                    #![trigger self.health@[q]]
                    0 <= q < self.health@.len() ==> self.health@[q].scope@ == old_health[q].scope@,
                forall|q: int|
                    #![trigger self.health@[q]]
                    0 <= q < i ==> if at_or_beneath(bytes_of(old_health[q].scope@), sb) {
                        pause_record(self.health@[q], old_health[q].scope@, who@, now)
                    } else {
                        self.health@[q] == old_health[q]
                    },
                forall|q: int|
                    #![trigger self.health@[q]]
                    i <= q < self.health@.len() ==> self.health@[q] == old_health[q],
                record_map(self.paused@) == h.restrict(
                    scopes_beneath(record_map(old_health.take(i as int)), sb),
                ).union_prefer_right(record_map(old_paused)),
                paused_count == count_beneath(old_health.take(i as int), sb),
                paused_count <= i,
            decreases self.health@.len() - i,
        {
            let ghost before = self.health@;
            let ghost paused_before = self.paused@;
            assert(old_health.take(i + 1).drop_last() =~= old_health.take(i as int));
            assert(old_health.take(i + 1).last() == old_health[i as int]);
            if beneath(self.health[i].scope.as_str(), scope) {
                let prior = self.health[i].duplicate();
                let mut evidence = "paused by ".to_owned();
                evidence.append(who);
                let held = HealthRecord {
                    scope: prior.scope.clone(),
                    health: Health::Paused,
                    severity: PAUSED_SEVERITY,
                    evidence,
                    observed_unix_nanos: now,
                };
                let already = holds_scope(&self.paused, prior.scope.as_str());
                proof {
                    let k = old_health[i as int].scope@;
                    lemma_record_map_at(old_health, i as int);
                    lemma_take_map(old_health, i as int);
                    lemma_scope_not_before(old_health, i as int);
                    assert(scopes_beneath(record_map(old_health.take(i + 1)), sb) =~= scopes_beneath(
                        record_map(old_health.take(i as int)),
                        sb,
                    ).insert(k));
                }
                if !already {
                    upsert_record(&mut self.paused, prior);
                }
                self.health.set(i, held);
                paused_count = paused_count + 1;
                proof {
                    assert(record_map(self.paused@) =~= h.restrict(
                        scopes_beneath(record_map(old_health.take(i + 1)), sb),
                    ).union_prefer_right(record_map(old_paused)));
                    lemma_same_scopes_sorted(before, self.health@);
                }
            } else {
                proof {
                    let k = old_health[i as int].scope@;
                    lemma_take_map(old_health, i as int);
                    assert(scopes_beneath(record_map(old_health.take(i + 1)), sb) =~= scopes_beneath(
                        record_map(old_health.take(i as int)),
                        sb,
                    ));
                }
            }
            i = i + 1;
        }
        proof {
            assert(old_health.take(i as int) =~= old_health);
            lemma_same_scopes_sorted(old_health, self.health@);
            assert(record_map(self.health@).dom() =~= h.dom()) by {
                assert forall|k: Seq<char>| h.contains_key(k) implies #[trigger] record_map(self.health@).contains_key(k) by {
                    lemma_record_map_has(old_health, k);
                    let q = choose|q: int| 0 <= q < old_health.len() && #[trigger] old_health[q].scope@ == k;
                    assert(self.health@[q].scope@ == k);
                    lemma_record_map_at(self.health@, q);
                }
                assert forall|k: Seq<char>| record_map(self.health@).contains_key(k) implies #[trigger] h.contains_key(k) by {
                    lemma_record_map_has(self.health@, k);
                    let q = choose|q: int| 0 <= q < self.health@.len() && #[trigger] self.health@[q].scope@ == k;
                    assert(self.health@[q].scope@ == old_health[q].scope@);
                    lemma_record_map_at(old_health, q);
                }
            }
            assert forall|k: Seq<char>| #![trigger record_map(self.health@)[k]] h.contains_key(k) implies if at_or_beneath(bytes_of(k), sb) {
                pause_record(record_map(self.health@)[k], k, who@, now)
            } else {
                record_map(self.health@)[k] == h[k]
            } by {
                lemma_record_map_has(old_health, k);
                let q = choose|q: int| 0 <= q < old_health.len() && #[trigger] old_health[q].scope@ == k;
                lemma_record_map_at(old_health, q);
                assert(self.health@[q].scope@ == k);
                lemma_record_map_at(self.health@, q);
            }
        }
        let ghost targets = scopes_beneath(h, sb);
        self.drop_counts_of(scope, Ghost(targets));
        paused_count
    }

    /// Drop every count whose scope is published and at or beneath `scope`.
    fn drop_counts_of(&mut self, scope: &str, Ghost(targets): Ghost<Set<Seq<char>>>)
        requires
            old(self).wf(),
            targets == scopes_beneath(old(self).health_map(), scope.spec_bytes()),
        ensures
            final(self).wf(),
            final(self).health@ == old(self).health@,
            final(self).paused@ == old(self).paused@,
            final(self).counts_map() == old(self).counts_map().restrict(
                Set::new(|key: (Seq<char>, Counted)| !targets.contains(key.0)),
            ),
    {
        let ghost old_counts = self.counts@;
        let mut kept: Vec<Count> = Vec::new();
        let mut j: usize = 0;
        assert(old_counts.take(0) =~= Seq::<Count>::empty());
        while j < self.counts.len()
            invariant
                j <= self.counts@.len(),
                self.counts@ == old_counts,
                records_sorted(self.health@),
                self.health@ == old(self).health@,
                targets == scopes_beneath(record_map(self.health@), scope.spec_bytes()),
                kept@ == counts_outside(old_counts.take(j as int), targets),
            decreases old_counts.len() - j,
        {
            let count = &self.counts[j];
            let stops = beneath(count.scope.as_str(), scope) && holds_scope(
                &self.health,
                count.scope.as_str(),
            );
            assert(old_counts.take(j + 1).drop_last() =~= old_counts.take(j as int));
            assert(old_counts.take(j + 1).last() == old_counts[j as int]);
            if !stops {
                let copy = count.duplicate();
                kept.push(copy);
            }
            j = j + 1;
        }
        proof {
            assert(old_counts.take(j as int) =~= old_counts);
            lemma_counts_outside(old_counts, targets);
        }
        self.counts = kept;
    }
}

/// The counts whose scopes are not among `targets`, in order.
pub open spec fn counts_outside(s: Seq<Count>, targets: Set<Seq<char>>) -> Seq<Count>
    decreases s.len(),
{
    if s.len() == 0 {
        Seq::empty()
    } else if targets.contains(s.last().scope@) {
        counts_outside(s.drop_last(), targets)
    } else {
        counts_outside(s.drop_last(), targets).push(s.last())
    }
}

/// Leaving out the counts of some scopes keeps the rest in order, by scope
/// and kind as they were.
proof fn lemma_counts_outside(s: Seq<Count>, targets: Set<Seq<char>>)
    requires
        counts_sorted(s),
    ensures
        counts_sorted(counts_outside(s, targets)),
        count_map(counts_outside(s, targets)) == count_map(s).restrict(
            Set::new(|key: (Seq<char>, Counted)| !targets.contains(key.0)),
        ),
        forall|a: int|
            0 <= a < counts_outside(s, targets).len() ==> exists|q: int|
                0 <= q < s.len() && s[q] == #[trigger] counts_outside(s, targets)[a],
    decreases s.len(),
{
    let keep = Set::new(|key: (Seq<char>, Counted)| !targets.contains(key.0));
    if s.len() > 0 {
        let d = s.drop_last();
        assert(counts_sorted(d)) by {
            assert forall|a: int, b: int| #![trigger d[a], d[b]] 0 <= a < b < d.len() implies count_order(
                d[a],
                d[b],
            ) < 0 by {
                assert(d[a] == s[a] && d[b] == s[b]);
            }
        }
        lemma_counts_outside(d, targets);
        let fd = counts_outside(d, targets);
        let f = counts_outside(s, targets);
        if targets.contains(s.last().scope@) {
            assert(count_map(f) =~= count_map(s).restrict(keep));
            assert forall|a: int| 0 <= a < f.len() implies exists|q: int|
                0 <= q < s.len() && s[q] == #[trigger] f[a] by {
                let q = choose|q: int| 0 <= q < d.len() && d[q] == #[trigger] fd[a];
                assert(s[q] == d[q]);
            }
        } else {
            assert(f.drop_last() =~= fd);
            assert(count_map(f) =~= count_map(s).restrict(keep));
            assert forall|a: int, b: int| #![trigger f[a], f[b]] 0 <= a < b < f.len() implies count_order(
                f[a],
                f[b],
            ) < 0 by {
                if b < fd.len() {
                    assert(f[a] == fd[a] && f[b] == fd[b]);
                } else {
                    assert(f[a] == fd[a]);
                    let q = choose|q: int| 0 <= q < d.len() && d[q] == #[trigger] fd[a];
                    assert(s[q] == d[q]);
                    assert(count_order(s[q], s[s.len() - 1]) < 0);
                }
            }
            assert forall|a: int| 0 <= a < f.len() implies exists|q: int|
                0 <= q < s.len() && s[q] == #[trigger] f[a] by {
                if a < fd.len() {
                    let q = choose|q: int| 0 <= q < d.len() && d[q] == #[trigger] fd[a];
                    assert(s[q] == d[q]);
                    assert(f[a] == fd[a]);
                } else {
                    assert(s[s.len() - 1] == f[a]);
                }
            }
        }
    }
}

/// The records whose scopes are not among `targets`, in order.
pub open spec fn records_outside(s: Seq<HealthRecord>, targets: Set<Seq<char>>) -> Seq<HealthRecord>
    decreases s.len(),
{
    if s.len() == 0 {
        Seq::empty()
    } else if targets.contains(s.last().scope@) {
        records_outside(s.drop_last(), targets)
    } else {
        records_outside(s.drop_last(), targets).push(s.last())
    }
}

/// Leaving out the records of some scopes keeps the rest in order, by scope
/// as they were.
proof fn lemma_records_outside(s: Seq<HealthRecord>, targets: Set<Seq<char>>)
    requires
        records_sorted(s),
    ensures
        records_sorted(records_outside(s, targets)),
        record_map(records_outside(s, targets)) == record_map(s).restrict(
            Set::new(|k: Seq<char>| !targets.contains(k)),
        ),
        forall|a: int|
            0 <= a < records_outside(s, targets).len() ==> exists|q: int|
                0 <= q < s.len() && s[q] == #[trigger] records_outside(s, targets)[a],
    decreases s.len(),
{
    let keep = Set::new(|k: Seq<char>| !targets.contains(k));
    if s.len() > 0 {
        let d = s.drop_last();
        assert(records_sorted(d)) by {
            assert forall|a: int, b: int| #![trigger d[a], d[b]] 0 <= a < b < d.len() implies scope_order(
                d[a].scope@,
                d[b].scope@,
            ) < 0 by {
                assert(d[a] == s[a] && d[b] == s[b]);
            }
        }
        lemma_records_outside(d, targets);
        let fd = records_outside(d, targets);
        let f = records_outside(s, targets);
        if targets.contains(s.last().scope@) {
            assert(record_map(f) =~= record_map(s).restrict(keep));
            assert forall|a: int| 0 <= a < f.len() implies exists|q: int|
                0 <= q < s.len() && s[q] == #[trigger] f[a] by {
                let q = choose|q: int| 0 <= q < d.len() && d[q] == #[trigger] fd[a];
                assert(s[q] == d[q]);
            }
        } else {
            assert(f.drop_last() =~= fd);
            assert(record_map(f) =~= record_map(s).restrict(keep));
            assert forall|a: int, b: int| #![trigger f[a], f[b]] 0 <= a < b < f.len() implies scope_order(
                f[a].scope@,
                f[b].scope@,
            ) < 0 by {
                if b < fd.len() {
                    assert(f[a] == fd[a] && f[b] == fd[b]);
                } else {
                    assert(f[a] == fd[a]);
                    let q = choose|q: int| 0 <= q < d.len() && d[q] == #[trigger] fd[a];
                    assert(s[q] == d[q]);
                    assert(scope_order(s[q].scope@, s[s.len() - 1].scope@) < 0);
                }
            }
            assert forall|a: int| 0 <= a < f.len() implies exists|q: int|
                0 <= q < s.len() && s[q] == #[trigger] f[a] by {
                if a < fd.len() {
                    let q = choose|q: int| 0 <= q < d.len() && d[q] == #[trigger] fd[a];
                    assert(s[q] == d[q]);
                    assert(f[a] == fd[a]);
                } else {
                    assert(s[s.len() - 1] == f[a]);
                }
            }
        }
    }
}

/// In sorted records, the scope at `i` is held by none of the records
/// before it.
proof fn lemma_scope_not_before(s: Seq<HealthRecord>, i: int)
    requires
        records_sorted(s),
        0 <= i < s.len(),
    ensures
        !record_map(s.take(i)).contains_key(s[i].scope@),
{
    if record_map(s.take(i)).contains_key(s[i].scope@) {
        lemma_record_map_has(s.take(i), s[i].scope@);
        let q = choose|q: int| 0 <= q < s.take(i).len() && #[trigger] s.take(i)[q].scope@ == s[i].scope@;
        assert(s.take(i)[q] == s[q]);
        assert(scope_order(s[q].scope@, s[i].scope@) < 0);
        lemma_scope_order(s[q].scope@, s[i].scope@);
    }
}

/// The records of a prefix, by scope, are those of the shorter prefix and
/// the record that extends it.
proof fn lemma_take_map(s: Seq<HealthRecord>, i: int)
    requires
        0 <= i < s.len(),
    ensures
        record_map(s.take(i + 1)) == record_map(s.take(i)).insert(s[i].scope@, s[i]),
{
    assert(s.take(i + 1).drop_last() =~= s.take(i));
}

/// Records with the same scopes in the same places are sorted alike.
proof fn lemma_same_scopes_sorted(a: Seq<HealthRecord>, b: Seq<HealthRecord>)
    requires
        records_sorted(a),
        a.len() == b.len(),
        forall|q: int| #![trigger b[q]] 0 <= q < b.len() ==> b[q].scope@ == a[q].scope@,
    ensures
        records_sorted(b),
{
    assert forall|i: int, j: int| #![trigger b[i], b[j]] 0 <= i < j < b.len() implies scope_order(
        b[i].scope@,
        b[j].scope@,
    ) < 0 by {
        assert(scope_order(a[i].scope@, a[j].scope@) < 0);
    }
}

impl Snapshot {
    /// Resume everything at and beneath a scope, putting back the state each
    /// had before it was paused. Returns how many scopes it resumed.
    pub fn resume(&mut self, scope: &str) -> (r: usize)
        requires
            old(self).wf(),
        ensures
            final(self).wf(),
            resume_of(*old(self), *final(self), scope.spec_bytes()),
            r == count_beneath(old(self).paused_seq(), scope.spec_bytes()),
    {
        let ghost old_paused = self.paused@;
        let ghost old_health = self.health@;
        let ghost sb = scope.spec_bytes();
        let ghost pm = record_map(old_paused);
        let mut resumed: usize = 0;
        let mut i: usize = 0;
        assert(old_paused.take(0) =~= Seq::<HealthRecord>::empty());
        while i < self.paused.len()
            invariant
                i <= self.paused@.len(),
                self.paused@ == old_paused,
                records_sorted(old_paused),
                pm == record_map(old_paused),
                sb == scope.spec_bytes(),
                records_sorted(self.health@),
                counts_sorted(self.counts@),
                self.counts@ == old(self).counts@,
                record_map(self.health@) == record_map(old_health).union_prefer_right(
                    pm.restrict(scopes_beneath(record_map(old_paused.take(i as int)), sb)),
                ),
                resumed == count_beneath(old_paused.take(i as int), sb),
                resumed <= i,
            decreases old_paused.len() - i,
        {
            assert(old_paused.take(i + 1).drop_last() =~= old_paused.take(i as int));
            assert(old_paused.take(i + 1).last() == old_paused[i as int]);
            proof {
                lemma_take_map(old_paused, i as int);
            }
            if beneath(self.paused[i].scope.as_str(), scope) {
                let prior = self.paused[i].duplicate();
                upsert_record(&mut self.health, prior);
                resumed = resumed + 1;
                proof {
                    let k = old_paused[i as int].scope@;
                    lemma_record_map_at(old_paused, i as int);
                    assert(scopes_beneath(record_map(old_paused.take(i + 1)), sb) =~= scopes_beneath(
                        record_map(old_paused.take(i as int)),
                        sb,
                    ).insert(k));
                    assert(record_map(self.health@) =~= record_map(old_health).union_prefer_right(
                        pm.restrict(scopes_beneath(record_map(old_paused.take(i + 1)), sb)),
                    ));
                }
            } else {
                assert(scopes_beneath(record_map(old_paused.take(i + 1)), sb) =~= scopes_beneath(
                    record_map(old_paused.take(i as int)),
                    sb,
                ));
            }
            i = i + 1;
        }
        proof {
            assert(old_paused.take(i as int) =~= old_paused);
        }
        let ghost targets = scopes_beneath(pm, sb);
        let mut kept: Vec<HealthRecord> = Vec::new();
        let mut j: usize = 0;
        while j < self.paused.len()
            invariant
                j <= self.paused@.len(),
                self.paused@ == old_paused,
                records_sorted(old_paused),
                pm == record_map(old_paused),
                targets == scopes_beneath(pm, sb),
                sb == scope.spec_bytes(),
                kept@ == records_outside(old_paused.take(j as int), targets),
            decreases old_paused.len() - j,
        {
            assert(old_paused.take(j + 1).drop_last() =~= old_paused.take(j as int));
            assert(old_paused.take(j + 1).last() == old_paused[j as int]);
            proof {
                lemma_record_map_at(old_paused, j as int);
            }
            if !beneath(self.paused[j].scope.as_str(), scope) {
                let copy = self.paused[j].duplicate();
                kept.push(copy);
            }
            j = j + 1;
        }
        proof {
            assert(old_paused.take(j as int) =~= old_paused);
            lemma_records_outside(old_paused, targets);
        }
        self.paused = kept;
        resumed
    }
}

// ---------------------------------------------------------------------------
// Reading the snapshot.

/// The records at or beneath `scope`, in the order held.
pub open spec fn records_beneath(s: Seq<HealthRecord>, scope: Seq<u8>) -> Seq<HealthRecord>
    decreases s.len(),
{
    if s.len() == 0 {
        Seq::empty()
    } else if at_or_beneath(bytes_of(s.last().scope@), scope) {
        records_beneath(s.drop_last(), scope).push(s.last())
    } else {
        records_beneath(s.drop_last(), scope)
    }
}

/// What a record is ordered by, worst first: its state, its severity, and
/// its scope.
pub open spec fn record_key(record: HealthRecord) -> KeyView {
    (health_rank(record.health) as u8, record.severity, bytes_of(record.scope@))
}

/// The keys of many records, in the order given.
pub open spec fn record_keys(s: Seq<HealthRecord>) -> Seq<KeyView> {
    s.map_values(|record: HealthRecord| record_key(record))
}

/// The records at the positions `order` lists, in that order.
pub open spec fn arranged(found: Seq<HealthRecord>, order: Seq<usize>) -> Seq<HealthRecord> {
    order.map_values(|i: usize| found[i as int])
}

/// The counts of one kind at or beneath `scope`, in the order held.
pub open spec fn counts_beneath(s: Seq<Count>, scope: Seq<u8>, counted: Counted) -> Seq<Count>
    decreases s.len(),
{
    if s.len() == 0 {
        Seq::empty()
    } else if s.last().counted == counted && at_or_beneath(bytes_of(s.last().scope@), scope) {
        counts_beneath(s.drop_last(), scope, counted).push(s.last())
    } else {
        counts_beneath(s.drop_last(), scope, counted)
    }
}

/// The sum of the counts' values.
pub open spec fn value_sum(s: Seq<Count>) -> nat
    decreases s.len(),
{
    if s.len() == 0 {
        0
    } else {
        value_sum(s.drop_last()) + s.last().value as nat
    }
}

/// The earliest window start among the counts.
pub open spec fn earliest_start(s: Seq<Count>) -> i64
    decreases s.len(),
{
    if s.len() <= 1 {
        s[0].window_start_unix_nanos
    } else if s.last().window_start_unix_nanos < earliest_start(s.drop_last()) {
        s.last().window_start_unix_nanos
    } else {
        earliest_start(s.drop_last())
    }
}

/// The latest window end among the counts.
pub open spec fn latest_end(s: Seq<Count>) -> i64
    decreases s.len(),
{
    if s.len() <= 1 {
        s[0].window_end_unix_nanos
    } else if s.last().window_end_unix_nanos > latest_end(s.drop_last()) {
        s.last().window_end_unix_nanos
    } else {
        latest_end(s.drop_last())
    }
}

/// The oldest observation among the counts.
pub open spec fn oldest_observed(s: Seq<Count>) -> i64
    decreases s.len(),
{
    if s.len() <= 1 {
        s[0].observed_unix_nanos
    } else if s.last().observed_unix_nanos < oldest_observed(s.drop_last()) {
        s.last().observed_unix_nanos
    } else {
        oldest_observed(s.drop_last())
    }
}

/// Whether `r` is the health at and beneath `scope` among `records`:
/// those records, worst first, then most severe first, then by scope.
pub open spec fn health_answer(records: Seq<HealthRecord>, scope: Seq<u8>, r: Seq<HealthRecord>) -> bool {
    exists|order: Seq<usize>|
        #![trigger arranged(records_beneath(records, scope), order)]
        is_worst_first(record_keys(records_beneath(records, scope)), order) && r == arranged(
            records_beneath(records, scope),
            order,
        )
}

/// Whether `r` is one kind of count summed over everything at and beneath
/// `scope` among `counts`: at `scope`, the sum of the parts, the union of
/// their windows and the oldest observation; `None` when no part is there.
pub open spec fn measured(counts: Seq<Count>, scope: Seq<char>, counted: Counted, r: Option<Count>) -> bool {
    let parts = counts_beneath(counts, bytes_of(scope), counted);
    match r {
        None => parts.len() == 0,
        Some(c) => {
            &&& parts.len() > 0
            &&& c.scope@ == scope
            &&& c.counted == counted
            &&& c.value == value_sum(parts)
            &&& c.window_start_unix_nanos == earliest_start(parts)
            &&& c.window_end_unix_nanos == latest_end(parts)
            &&& c.observed_unix_nanos == oldest_observed(parts)
        },
    }
}

/// A longer prefix sums to at least as much.
proof fn lemma_sum_grows(s: Seq<Count>, scope: Seq<u8>, counted: Counted, j: int)
    requires
        0 <= j <= s.len(),
    ensures
        value_sum(counts_beneath(s.take(j), scope, counted)) <= value_sum(
            counts_beneath(s, scope, counted),
        ),
    decreases s.len() - j,
{
    if j == s.len() {
        assert(s.take(j) =~= s);
    } else {
        assert(s.take(j + 1).drop_last() =~= s.take(j));
        let before = counts_beneath(s.take(j), scope, counted);
        let after = counts_beneath(s.take(j + 1), scope, counted);
        if after != before {
            assert(after.drop_last() =~= before);
        }
        lemma_sum_grows(s, scope, counted, j + 1);
    }
}

impl Snapshot {
    /// Health at and beneath a scope, worst first and, within a state, most
    /// severe first — a red at 90 above a red at 60 — then by scope.
    pub fn health(&self, scope: &str) -> (r: Vec<HealthRecord>)
        requires
            self.wf(),
        ensures
            health_answer(self.health_seq(), scope.spec_bytes(), r@),
    {
        let ghost all = self.health@;
        let ghost sb = scope.spec_bytes();
        let mut found: Vec<HealthRecord> = Vec::new();
        let mut i: usize = 0;
        assert(all.take(0) =~= Seq::<HealthRecord>::empty());
        while i < self.health.len()
            invariant
                i <= all.len(),
                all == self.health@,
                sb == scope.spec_bytes(),
                found@ == records_beneath(all.take(i as int), sb),
            decreases all.len() - i,
        {
            assert(all.take(i + 1).drop_last() =~= all.take(i as int));
            assert(all.take(i + 1).last() == all[i as int]);
            if beneath(self.health[i].scope.as_str(), scope) {
                let copy = self.health[i].duplicate();
                found.push(copy);
            }
            i = i + 1;
        }
        assert(all.take(i as int) =~= all);
        let mut keys: Vec<Key> = Vec::new();
        let mut j: usize = 0;
        while j < found.len()
            invariant
                j <= found@.len(),
                keys_view(keys@) == record_keys(found@).take(j as int),
            decreases found@.len() - j,
        {
            let record = &found[j];
            let key: Key = (record.health.rank(), record.severity, record.scope.as_str());
            let ghost before = keys@;
            keys.push(key);
            assert(keys_view(keys@) =~= keys_view(before).push(key_view(key)));
            assert(record_keys(found@).take(j + 1) =~= record_keys(found@).take(j as int).push(
                key_view(key),
            ));
            j = j + 1;
        }
        assert(keys_view(keys@) =~= record_keys(found@));
        let order = worst_first_positions(keys.as_slice());
        let mut ordered: Vec<HealthRecord> = Vec::new();
        let mut m: usize = 0;
        while m < order.len()
            invariant
                m <= order@.len(),
                is_worst_first(record_keys(found@), order@),
                ordered@ == arranged(found@, order@).take(m as int),
            decreases order@.len() - m,
        {
            let at = order[m];
            let copy = found[at].duplicate();
            ordered.push(copy);
            assert(ordered@ =~= arranged(found@, order@).take(m + 1));
            m = m + 1;
        }
        assert(ordered@ =~= arranged(found@, order@));
        ordered
    }

    /// The worst health at or beneath a scope, or `None` when nothing is
    /// recorded there.
    pub fn worst(&self, scope: &str) -> (r: Option<Health>)
        requires
            self.wf(),
        ensures
            r is None <==> records_beneath(self.health_seq(), scope.spec_bytes()).len() == 0,
            r matches Some(h) ==> {
                let found = records_beneath(self.health_seq(), scope.spec_bytes());
                &&& exists|i: int| 0 <= i < found.len() && #[trigger] found[i].health == h
                &&& forall|i: int|
                    0 <= i < found.len() ==> health_rank(#[trigger] found[i].health) <= health_rank(h)
            },
    {
        let records = self.health(scope);
        let ghost found = records_beneath(self.health_seq(), scope.spec_bytes());
        let ghost order = choose|order: Seq<usize>|
            #![trigger arranged(found, order)]
            is_worst_first(record_keys(found), order) && records@ == arranged(found, order);
        if records.len() == 0 {
            proof {
                if found.len() > 0 {
                    assert(holds_position(order, 0));
                }
            }
            None
        } else {
            let h = records[0].health;
            proof {
                assert(records@[0] == found[order[0] as int]);
                assert forall|i: int| 0 <= i < found.len() implies health_rank(#[trigger] found[i].health) <= health_rank(h) by {
                    assert(holds_position(order, i));
                    let j = choose|j: int| 0 <= j < order.len() && #[trigger] order[j] == i;
                    if j > 0 {
                        assert(key_order(
                            record_keys(found)[order[0] as int],
                            record_keys(found)[order[j] as int],
                        ) <= 0);
                    }
                }
                assert(found[order[0] as int].health == h);
            }
            Some(h)
        }
    }

    /// One kind of count, summed over everything at and beneath a scope.
    /// The window is the union of the parts and the observation the oldest,
    /// so a reader sees the staleness of the stalest part. `None` when
    /// nothing is recorded.
    pub fn measure(&self, scope: &str, counted: Counted) -> (r: Option<Count>)
        requires
            self.wf(),
            value_sum(counts_beneath(self.count_seq(), scope.spec_bytes(), counted)) <= u64::MAX,
        ensures
            measured(self.count_seq(), scope@, counted, r),
            r matches Some(c) ==> spans_its_parts(
                c,
                counts_beneath(self.count_seq(), scope.spec_bytes(), counted),
            ),
    {
        let ghost all = self.counts@;
        let ghost sb = scope.spec_bytes();
        let mut any = false;
        let mut sum: u64 = 0;
        let mut start: i64 = 0;
        let mut end: i64 = 0;
        let mut observed: i64 = 0;
        let mut j: usize = 0;
        assert(all.take(0) =~= Seq::<Count>::empty());
        while j < self.counts.len()
            invariant
                j <= all.len(),
                all == self.counts@,
                sb == scope.spec_bytes(),
                value_sum(counts_beneath(all, sb, counted)) <= u64::MAX,
                any == (counts_beneath(all.take(j as int), sb, counted).len() > 0),
                sum == value_sum(counts_beneath(all.take(j as int), sb, counted)),
                any ==> start == earliest_start(counts_beneath(all.take(j as int), sb, counted)),
                any ==> end == latest_end(counts_beneath(all.take(j as int), sb, counted)),
                any ==> observed == oldest_observed(counts_beneath(all.take(j as int), sb, counted)),
            decreases all.len() - j,
        {
            let ghost before = counts_beneath(all.take(j as int), sb, counted);
            assert(all.take(j + 1).drop_last() =~= all.take(j as int));
            assert(all.take(j + 1).last() == all[j as int]);
            let count = &self.counts[j];
            if count.counted == counted && beneath(count.scope.as_str(), scope) {
                proof {
                    lemma_sum_grows(all, sb, counted, j + 1);
                    let after = counts_beneath(all.take(j + 1), sb, counted);
                    assert(after == before.push(*count));
                    assert(after.drop_last() =~= before);
                }
                sum = sum + count.value;
                if !any || count.window_start_unix_nanos < start {
                    start = count.window_start_unix_nanos;
                }
                if !any || count.window_end_unix_nanos > end {
                    end = count.window_end_unix_nanos;
                }
                if !any || count.observed_unix_nanos < observed {
                    observed = count.observed_unix_nanos;
                }
                any = true;
            }
            j = j + 1;
        }
        assert(all.take(j as int) =~= all);
        if !any {
            return None;
        }
        proof {
            lemma_parts_span(counts_beneath(all, sb, counted));
        }
        Some(
            Count {
                scope: scope.to_owned(),
                counted,
                value: sum,
                window_start_unix_nanos: start,
                window_end_unix_nanos: end,
                observed_unix_nanos: observed,
            },
        )
    }
}

// ---------------------------------------------------------------------------
// What holds across calls.

/// What resuming `scope` publishes: the held record of each paused scope
/// at or beneath it, and every other record as it was.
pub open spec fn resumed_health(snapshot: Snapshot, scope: Seq<u8>) -> Map<Seq<char>, HealthRecord> {
    snapshot.health_map().union_prefer_right(
        snapshot.paused_map().restrict(scopes_beneath(snapshot.paused_map(), scope)),
    )
}

/// What is still held after resuming `scope`: the paused scopes elsewhere.
pub open spec fn still_held(snapshot: Snapshot, scope: Seq<u8>) -> Map<Seq<char>, HealthRecord> {
    snapshot.paused_map().restrict(
        Set::new(|k: Seq<char>| !scopes_beneath(snapshot.paused_map(), scope).contains(k)),
    )
}

/// Resume puts back exactly what was there: pausing a scope and then
/// resuming it publishes what resuming it straight away would have — each
/// scope that was held already comes back as it was before it was first
/// paused, and every other scope comes back as it was before this pause.
/// When nothing at or beneath the scope was held, the snapshot's health
/// and held records are exactly those before the pause.
pub proof fn law_resume_undoes_pause(
    before: Snapshot,
    paused: Snapshot,
    resumed: Snapshot,
    scope: Seq<u8>,
    who: Seq<char>,
    now: i64,
)
    requires
        pause_of(before, paused, scope, who, now),
        resume_of(paused, resumed, scope),
    ensures
        resumed.health_map() == resumed_health(before, scope),
        resumed.paused_map() == still_held(before, scope),
        scopes_beneath(before.paused_map(), scope).is_empty() ==> {
            &&& resumed.health_map() == before.health_map()
            &&& resumed.paused_map() == before.paused_map()
        },
{
    let h = before.health_map();
    let p = before.paused_map();
    let targets = scopes_beneath(h, scope);
    let held_before = scopes_beneath(p, scope);
    let held = scopes_beneath(paused.paused_map(), scope);
    assert(held =~= targets.union(held_before));
    assert(resumed.health_map() =~= resumed_health(before, scope));
    assert(resumed.paused_map() =~= still_held(before, scope));
    if held_before.is_empty() {
        assert forall|k: Seq<char>| p.contains_key(k) implies !at_or_beneath(bytes_of(k), scope) by {
            assert(!held_before.contains(k));
        }
        assert(resumed.health_map() =~= h);
        assert(resumed.paused_map() =~= p);
    }
}

/// A pause never replaces a held record: a scope paused already keeps the
/// record it had before it was first paused, however often it is paused
/// again.
pub proof fn law_pause_keeps_what_is_held(
    before: Snapshot,
    after: Snapshot,
    scope: Seq<u8>,
    who: Seq<char>,
    now: i64,
    held: Seq<char>,
)
    requires
        pause_of(before, after, scope, who, now),
        before.paused_map().contains_key(held),
    ensures
        after.paused_map().contains_key(held),
        after.paused_map()[held] == before.paused_map()[held],
{
}

/// Pausing a scope twice and resuming it publishes each record as it was
/// before the first pause, when nothing beneath it was held before.
pub proof fn law_resume_after_two_pauses(
    before: Snapshot,
    once: Snapshot,
    twice: Snapshot,
    resumed: Snapshot,
    scope: Seq<u8>,
    who: Seq<char>,
    now: i64,
    who_again: Seq<char>,
    later: i64,
)
    requires
        pause_of(before, once, scope, who, now),
        pause_of(once, twice, scope, who_again, later),
        resume_of(twice, resumed, scope),
        scopes_beneath(before.paused_map(), scope).is_empty(),
    ensures
        resumed.health_map() == before.health_map(),
        resumed.paused_map() == before.paused_map(),
{
    law_resume_undoes_pause(once, twice, resumed, scope, who_again, later);
    let h = before.health_map();
    let p = before.paused_map();
    let targets = scopes_beneath(h, scope);
    assert forall|k: Seq<char>| p.contains_key(k) implies !at_or_beneath(bytes_of(k), scope) by {
        assert(!scopes_beneath(p, scope).contains(k));
    }
    assert(scopes_beneath(once.paused_map(), scope) =~= targets);
    assert(resumed.health_map() =~= h);
    assert(resumed.paused_map() =~= p);
}

/// Every scope a pause reached is paused afterwards: a fresh count there
/// is dropped, and it stays `Paused` until it is resumed.
pub proof fn law_pause_holds_what_it_reached(
    before: Snapshot,
    after: Snapshot,
    scope: Seq<u8>,
    who: Seq<char>,
    now: i64,
    reached: Seq<char>,
)
    requires
        before.wf(),
        pause_of(before, after, scope, who, now),
        before.health_map().contains_key(reached),
        at_or_beneath(bytes_of(reached), scope),
    ensures
        after.paused_at(bytes_of(reached)),
{
    assert(scopes_beneath(before.health_map(), scope).contains(reached));
    assert(after.paused_map().contains_key(reached));
    law_contains_itself_at(bytes_of(reached));
}

/// Every record at or beneath a part of the tree is at or beneath the
/// whole: health up the tree is the worst beneath, so a scope is never
/// healthier than a scope beneath it.
pub proof fn law_health_rolls_up(records: Seq<HealthRecord>, whole: Seq<u8>, part: Seq<u8>)
    requires
        at_or_beneath(part, whole),
    ensures
        forall|i: int|
            0 <= i < records_beneath(records, part).len() ==> records_beneath(
                records,
                whole,
            ).contains(#[trigger] records_beneath(records, part)[i]),
    decreases records.len(),
{
    if records.len() > 0 {
        let shorter = records.drop_last();
        law_health_rolls_up(shorter, whole, part);
        let last = records.last();
        if at_or_beneath(bytes_of(last.scope@), part) {
            lemma_beneath_transitive(bytes_of(last.scope@), part, whole);
        }
        let small = records_beneath(shorter, part);
        let big = records_beneath(shorter, whole);
        assert forall|i: int|
            0 <= i < records_beneath(records, part).len() implies records_beneath(
            records,
            whole,
        ).contains(#[trigger] records_beneath(records, part)[i]) by {
            if i < small.len() {
                let j = choose|j: int| 0 <= j < big.len() && big[j] == small[i];
                assert(records_beneath(records, whole)[j] == big[j]);
            } else {
                assert(records_beneath(records, whole).last() == last);
            }
        }
    }
}

/// A count up the tree is the sum beneath: what is counted at or beneath
/// a part of the tree is never more than what is counted at or beneath the
/// whole.
pub proof fn law_counts_roll_up(counts: Seq<Count>, whole: Seq<u8>, part: Seq<u8>, counted: Counted)
    requires
        at_or_beneath(part, whole),
    ensures
        value_sum(counts_beneath(counts, part, counted)) <= value_sum(
            counts_beneath(counts, whole, counted),
        ),
    decreases counts.len(),
{
    if counts.len() > 0 {
        let shorter = counts.drop_last();
        law_counts_roll_up(shorter, whole, part, counted);
        let last = counts.last();
        let small = counts_beneath(shorter, part, counted);
        let big = counts_beneath(shorter, whole, counted);
        assert(small.push(last).drop_last() =~= small);
        assert(big.push(last).drop_last() =~= big);
        if last.counted == counted && at_or_beneath(bytes_of(last.scope@), part) {
            lemma_beneath_transitive(bytes_of(last.scope@), part, whole);
        }
    }
}

/// The scope of the last of sorted records is held by none before it.
proof fn lemma_last_is_new(s: Seq<HealthRecord>)
    requires
        records_sorted(s),
        s.len() > 0,
    ensures
        !record_map(s.drop_last()).contains_key(s.last().scope@),
        record_map(s.drop_last()) == record_map(s).remove(s.last().scope@),
{
    lemma_scope_not_before(s, s.len() - 1);
    assert(s.take(s.len() - 1) =~= s.drop_last());
    assert(record_map(s.drop_last()) =~= record_map(s).remove(s.last().scope@));
}

/// Sorted records are one sequence for their map: two sorted lists of
/// records that hold the same records by scope are the same list.
pub proof fn lemma_sorted_records_unique(a: Seq<HealthRecord>, b: Seq<HealthRecord>)
    requires
        records_sorted(a),
        records_sorted(b),
        record_map(a) == record_map(b),
    ensures
        a == b,
    decreases a.len() + b.len(),
{
    if a.len() == 0 && b.len() == 0 {
        assert(a =~= b);
    } else if a.len() == 0 {
        lemma_record_map_at(b, b.len() - 1);
    } else if b.len() == 0 {
        lemma_record_map_at(a, a.len() - 1);
    } else {
        let (ka, kb) = (a.last().scope@, b.last().scope@);
        lemma_record_map_at(a, a.len() - 1);
        lemma_record_map_at(b, b.len() - 1);
        if ka != kb {
            lemma_record_map_has(a, kb);
            let i = choose|i: int| 0 <= i < a.len() && #[trigger] a[i].scope@ == kb;
            lemma_record_map_has(b, ka);
            let j = choose|j: int| 0 <= j < b.len() && #[trigger] b[j].scope@ == ka;
            assert(i < a.len() - 1);
            assert(j < b.len() - 1);
            assert(scope_order(a[i].scope@, a[a.len() - 1].scope@) < 0);
            assert(scope_order(b[j].scope@, b[b.len() - 1].scope@) < 0);
            lemma_scope_order(ka, kb);
        }
        let (da, db) = (a.drop_last(), b.drop_last());
        lemma_last_is_new(a);
        lemma_last_is_new(b);
        assert(records_sorted(da)) by {
            assert forall|x: int, y: int| #![trigger da[x], da[y]] 0 <= x < y < da.len() implies scope_order(
                da[x].scope@,
                da[y].scope@,
            ) < 0 by {
                assert(da[x] == a[x] && da[y] == a[y]);
            }
        }
        assert(records_sorted(db)) by {
            assert forall|x: int, y: int| #![trigger db[x], db[y]] 0 <= x < y < db.len() implies scope_order(
                db[x].scope@,
                db[y].scope@,
            ) < 0 by {
                assert(db[x] == b[x] && db[y] == b[y]);
            }
        }
        lemma_sorted_records_unique(da, db);
        assert(a =~= da.push(a.last()));
        assert(b =~= db.push(b.last()));
    }
}

/// What is counted at or beneath a scope among sorted records is how many
/// scopes there the records hold.
pub proof fn lemma_count_beneath_scopes(s: Seq<HealthRecord>, scope: Seq<u8>)
    requires
        records_sorted(s),
    ensures
        scopes_beneath(record_map(s), scope).finite(),
        count_beneath(s, scope) == scopes_beneath(record_map(s), scope).len(),
    decreases s.len(),
{
    if s.len() == 0 {
        assert(scopes_beneath(record_map(s), scope) =~= Set::<Seq<char>>::empty());
    } else {
        let d = s.drop_last();
        let k = s.last().scope@;
        assert(records_sorted(d)) by {
            assert forall|x: int, y: int| #![trigger d[x], d[y]] 0 <= x < y < d.len() implies scope_order(
                d[x].scope@,
                d[y].scope@,
            ) < 0 by {
                assert(d[x] == s[x] && d[y] == s[y]);
            }
        }
        lemma_count_beneath_scopes(d, scope);
        lemma_last_is_new(s);
        if at_or_beneath(bytes_of(k), scope) {
            assert(scopes_beneath(record_map(s), scope) =~= scopes_beneath(record_map(d), scope).insert(k));
        } else {
            assert(scopes_beneath(record_map(s), scope) =~= scopes_beneath(record_map(d), scope));
        }
    }
}

/// Resume gives back what pause took, in order: when nothing at or beneath
/// the scope was held, pausing and then resuming it leaves the published
/// records and the held ones exactly as they were, and resume answers the
/// number of scopes the pause answered.
pub proof fn law_resume_gives_back_what_pause_took(
    before: Snapshot,
    paused: Snapshot,
    resumed: Snapshot,
    scope: Seq<u8>,
    who: Seq<char>,
    now: i64,
)
    requires
        before.wf(),
        paused.wf(),
        resumed.wf(),
        pause_of(before, paused, scope, who, now),
        resume_of(paused, resumed, scope),
        scopes_beneath(before.paused_map(), scope).is_empty(),
    ensures
        resumed.health_seq() == before.health_seq(),
        resumed.paused_seq() == before.paused_seq(),
        count_beneath(paused.paused_seq(), scope) == count_beneath(before.health_seq(), scope),
{
    law_resume_undoes_pause(before, paused, resumed, scope, who, now);
    lemma_sorted_records_unique(resumed.health_seq(), before.health_seq());
    lemma_sorted_records_unique(resumed.paused_seq(), before.paused_seq());
    lemma_count_beneath_scopes(paused.paused_seq(), scope);
    lemma_count_beneath_scopes(before.health_seq(), scope);
    let p = before.paused_map();
    assert forall|k: Seq<char>| p.contains_key(k) implies !at_or_beneath(bytes_of(k), scope) by {
        assert(!scopes_beneath(p, scope).contains(k));
    }
    assert(scopes_beneath(paused.paused_map(), scope) =~= scopes_beneath(before.health_map(), scope));
}

/// The snapshot returns health in the one worst-first order every reader
/// uses: a record stands where a [`Standing`] of its mood, severity and
/// scope stands.
pub proof fn law_records_stand_as_standings(record: HealthRecord, standing: Standing)
    requires
        standing.health == record.health,
        standing.severity == record.severity,
        standing.scope@ == record.scope@,
    ensures
        standing_key(standing) == record_key(record),
{
}

/// Whether a count spans `parts`: its window starts no later than any
/// part's and at one part's start, ends no earlier than any part's and at
/// one part's end, and its observation is the oldest of theirs, so a reader
/// sees the staleness of the stalest part.
pub open spec fn spans_its_parts(c: Count, parts: Seq<Count>) -> bool {
    &&& forall|i: int|
        0 <= i < parts.len() ==> {
            &&& c.window_start_unix_nanos <= #[trigger] parts[i].window_start_unix_nanos
            &&& c.window_end_unix_nanos >= parts[i].window_end_unix_nanos
            &&& c.observed_unix_nanos <= parts[i].observed_unix_nanos
        }
    &&& exists|i: int|
        0 <= i < parts.len() && #[trigger] parts[i].window_start_unix_nanos == c.window_start_unix_nanos
    &&& exists|i: int|
        0 <= i < parts.len() && #[trigger] parts[i].window_end_unix_nanos == c.window_end_unix_nanos
    &&& exists|i: int|
        0 <= i < parts.len() && #[trigger] parts[i].observed_unix_nanos == c.observed_unix_nanos
}

/// The earliest start, latest end and oldest observation of some parts are
/// the least, greatest and least among theirs, each one part's own.
proof fn lemma_parts_span(parts: Seq<Count>)
    requires
        parts.len() > 0,
    ensures
        spans_its_parts(
            Count {
                scope: parts[0].scope,
                counted: parts[0].counted,
                value: 0,
                window_start_unix_nanos: earliest_start(parts),
                window_end_unix_nanos: latest_end(parts),
                observed_unix_nanos: oldest_observed(parts),
            },
            parts,
        ),
    decreases parts.len(),
{
    let n = parts.len();
    if n > 1 {
        let d = parts.drop_last();
        lemma_parts_span(d);
        let last = n - 1;
        assert forall|i: int| 0 <= i < n implies {
            &&& earliest_start(parts) <= #[trigger] parts[i].window_start_unix_nanos
            &&& latest_end(parts) >= parts[i].window_end_unix_nanos
            &&& oldest_observed(parts) <= parts[i].observed_unix_nanos
        } by {
            if i < last {
                assert(parts[i] == d[i]);
                assert(earliest_start(d) <= d[i].window_start_unix_nanos);
            }
        }
        let ws = choose|i: int| 0 <= i < d.len() && #[trigger] d[i].window_start_unix_nanos == earliest_start(d);
        let we = choose|i: int| 0 <= i < d.len() && #[trigger] d[i].window_end_unix_nanos == latest_end(d);
        let ob = choose|i: int| 0 <= i < d.len() && #[trigger] d[i].observed_unix_nanos == oldest_observed(d);
        assert(parts[ws] == d[ws] && parts[we] == d[we] && parts[ob] == d[ob]);
        assert(parts[last] == parts.last());
    } else {
        assert(parts[0].window_start_unix_nanos == earliest_start(parts));
    }
}

/// What a measure answers spans what it summed: over any counts, the
/// measure of a kind at a scope starts at the earliest of the parts'
/// windows, ends at the latest, and is observed when the stalest part was.
pub proof fn law_measure_spans_its_parts(counts: Seq<Count>, scope: Seq<char>, counted: Counted, c: Count)
    requires
        measured(counts, scope, counted, Some(c)),
    ensures
        spans_its_parts(c, counts_beneath(counts, bytes_of(scope), counted)),
{
    lemma_parts_span(counts_beneath(counts, bytes_of(scope), counted));
}

/// The parts a measure sums are exactly the counts of its kind at or
/// beneath its scope, each once, in the order held.
pub proof fn law_parts_are_the_counts_beneath(counts: Seq<Count>, scope: Seq<u8>, counted: Counted)
    ensures
        forall|i: int|
            0 <= i < counts.len() && counts[i].counted == counted && at_or_beneath(
                bytes_of(counts[i].scope@),
                scope,
            ) ==> counts_beneath(counts, scope, counted).contains(#[trigger] counts[i]),
        forall|i: int|
            0 <= i < counts_beneath(counts, scope, counted).len() ==> {
                &&& counts.contains(#[trigger] counts_beneath(counts, scope, counted)[i])
                &&& counts_beneath(counts, scope, counted)[i].counted == counted
                &&& at_or_beneath(bytes_of(counts_beneath(counts, scope, counted)[i].scope@), scope)
            },
    decreases counts.len(),
{
    if counts.len() > 0 {
        let d = counts.drop_last();
        law_parts_are_the_counts_beneath(d, scope, counted);
        let small = counts_beneath(d, scope, counted);
        let big = counts_beneath(counts, scope, counted);
        assert forall|i: int|
            0 <= i < counts.len() && counts[i].counted == counted && at_or_beneath(
                bytes_of(counts[i].scope@),
                scope,
            ) implies big.contains(#[trigger] counts[i]) by {
            if i < counts.len() - 1 {
                assert(counts[i] == d[i]);
                let j = choose|j: int| 0 <= j < small.len() && small[j] == d[i];
                assert(big[j] == small[j]);
            } else {
                assert(big[big.len() - 1] == counts.last());
            }
        }
        assert forall|i: int| 0 <= i < big.len() implies {
            &&& counts.contains(#[trigger] big[i])
            &&& big[i].counted == counted
            &&& at_or_beneath(bytes_of(big[i].scope@), scope)
        } by {
            if i < small.len() {
                assert(big[i] == small[i]);
                let j = choose|j: int| 0 <= j < d.len() && d[j] == small[i];
                assert(counts[j] == d[j]);
            } else {
                assert(counts[counts.len() - 1] == counts.last());
            }
        }
    }
}

/// A sum over parts adds: nothing sums to nothing, one count to its value,
/// and two runs of counts to the sum of their sums.
pub proof fn law_sum_adds(a: Seq<Count>, b: Seq<Count>, c: Count)
    ensures
        value_sum(Seq::<Count>::empty()) == 0,
        value_sum(seq![c]) == c.value,
        value_sum(a + b) == value_sum(a) + value_sum(b),
    decreases b.len(),
{
    assert(seq![c].drop_last() =~= Seq::<Count>::empty());
    if b.len() == 0 {
        assert(a + b =~= a);
    } else {
        law_sum_adds(a, b.drop_last(), c);
        assert((a + b).drop_last() =~= a + b.drop_last());
        assert((a + b).last() == b.last());
    }
}

/// The records health answers for a scope are exactly the records at or
/// beneath it, each in the snapshot.
pub proof fn law_records_beneath_are_those_beneath(records: Seq<HealthRecord>, scope: Seq<u8>)
    ensures
        forall|i: int|
            0 <= i < records.len() && at_or_beneath(bytes_of(records[i].scope@), scope)
                ==> records_beneath(records, scope).contains(#[trigger] records[i]),
        forall|i: int|
            0 <= i < records_beneath(records, scope).len() ==> {
                &&& records.contains(#[trigger] records_beneath(records, scope)[i])
                &&& at_or_beneath(bytes_of(records_beneath(records, scope)[i].scope@), scope)
            },
    decreases records.len(),
{
    if records.len() > 0 {
        let d = records.drop_last();
        law_records_beneath_are_those_beneath(d, scope);
        let small = records_beneath(d, scope);
        let big = records_beneath(records, scope);
        assert forall|i: int|
            0 <= i < records.len() && at_or_beneath(bytes_of(records[i].scope@), scope)
            implies big.contains(#[trigger] records[i]) by {
            if i < records.len() - 1 {
                assert(records[i] == d[i]);
                let j = choose|j: int| 0 <= j < small.len() && small[j] == d[i];
                assert(big[j] == small[j]);
            } else {
                assert(big[big.len() - 1] == records.last());
            }
        }
        assert forall|i: int| 0 <= i < big.len() implies {
            &&& records.contains(#[trigger] big[i])
            &&& at_or_beneath(bytes_of(big[i].scope@), scope)
        } by {
            if i < small.len() {
                assert(big[i] == small[i]);
                let j = choose|j: int| 0 <= j < d.len() && d[j] == small[i];
                assert(records[j] == d[j]);
            } else {
                assert(records[records.len() - 1] == records.last());
            }
        }
    }
}

} // verus!