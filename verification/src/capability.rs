//! Where a node publishes what it declares it can do: one health record at
//! `<node>/capability`, its evidence the declaration.
//!
//! A publisher writes the record at [`scope`], and every reader finds the
//! node a capability record belongs to by [`declarer`].

use vstd::prelude::*;
use vstd::string::*;
use vstd::utf8::*;
use crate::scope::{
    Scope, after_authority, first_slash, lemma_segments_split, lemma_segments_without_slash, path_of,
    scheme, segments_of, texts_bytes,
};
use crate::text::{
    bytes_of, lemma_ascii_boundary, lemma_ends_are_boundaries, lemma_str_decodes, lemma_str_valid,
    same_text, slash, slice_str, trim_end_slashes, trim_start_slashes, trimmed_end_len,
};

verus! {

/// The leaf a node's capability record sits at, beneath the node.
pub const LEAF: &'static str = "capability";

/// The text of a node's capability scope: the node's scope without its
/// trailing slashes, then `/capability`.
pub open spec fn capability_scope(node_scope: Seq<u8>) -> Seq<char> {
    decode_utf8(trim_end_slashes(node_scope)) + "/capability"@
}

/// The bytes of `/capability`: a slash, then the leaf.
pub open spec fn slash_leaf() -> Seq<u8> {
    seq![47u8, 99u8, 97u8, 112u8, 97u8, 98u8, 105u8, 108u8, 105u8, 116u8, 121u8]
}

/// The bytes of `/capability` and of the leaf.
proof fn lemma_leaf_bytes()
    ensures
        bytes_of("/capability"@) == slash_leaf(),
        bytes_of(LEAF@) == slash_leaf().drop_first(),
{
    reveal_strlit("/capability");
    reveal_strlit("capability");
    let whole = "/capability"@;
    let leaf = "capability"@;
    assert(is_ascii_chars(whole));
    assert(is_ascii_chars(leaf));
    is_ascii_chars_encode_utf8(whole);
    is_ascii_chars_encode_utf8(leaf);
    assert(bytes_of(whole) =~= slash_leaf());
    assert(bytes_of(leaf) =~= slash_leaf().drop_first());
}

/// The bytes of two texts one after the other are the bytes of each.
proof fn lemma_bytes_concat(a: Seq<char>, b: Seq<char>)
    ensures
        bytes_of(a + b) == bytes_of(a) + bytes_of(b),
    decreases a.len(),
{
    if a.len() == 0 {
        assert(a + b =~= b);
        assert(bytes_of(a) + bytes_of(b) =~= bytes_of(b));
    } else {
        assert((a + b).drop_first() =~= a.drop_first() + b);
        lemma_bytes_concat(a.drop_first(), b);
        assert((a + b)[0] == a[0]);
        assert(encode_scalar(a[0] as u32) + (bytes_of(a.drop_first()) + bytes_of(b))
            =~= (encode_scalar(a[0] as u32) + bytes_of(a.drop_first())) + bytes_of(b));
    }
}

/// The node a record sits beneath when it is a capability record: the
/// segment before a last segment that is the leaf.
pub open spec fn declarer_of(record_scope: Seq<u8>) -> Option<Seq<u8>> {
    let parts = segments_of(path_of(record_scope));
    if parts.len() >= 2 && parts.last() == bytes_of(LEAF@) {
        Some(parts[parts.len() - 2])
    } else {
        None
    }
}

/// The scope a node at `node_scope` publishes its capability at.
pub fn scope(node_scope: &str) -> (r: String)
    ensures
        r@ == capability_scope(node_scope.spec_bytes()),
        bytes_of(r@) == trim_end_slashes(node_scope.spec_bytes()) + slash_leaf(),
{
    let bytes = node_scope.as_bytes();
    let m = trimmed_end_len(bytes);
    proof {
        lemma_str_valid(node_scope);
        lemma_ends_are_boundaries(bytes@);
        if m < bytes@.len() {
            assert(bytes@[m as int] == 47) by {
                lemma_trimmed_stops_at_slash(bytes@, m as int);
            }
            lemma_ascii_boundary(bytes@, m as int);
        }
    }
    let kept = slice_str(node_scope, 0, m);
    proof {
        lemma_str_decodes(kept);
        assert(bytes@.subrange(0, m as int) =~= bytes@.take(m as int));
    }
    let mut r = kept.to_owned();
    r.append("/capability");
    proof {
        lemma_bytes_concat(kept@, "/capability"@);
        lemma_leaf_bytes();
    }
    r
}

/// The byte after the part kept by trimming trailing slashes is a slash.
proof fn lemma_trimmed_stops_at_slash(b: Seq<u8>, m: int)
    requires
        0 <= m < b.len(),
        trim_end_slashes(b) == b.take(m),
    ensures
        b[m] == 47,
    decreases b.len(),
{
    if b.last() == 47 {
        if m < b.len() - 1 {
            assert(trim_end_slashes(b) == trim_end_slashes(b.drop_last()));
            assert(b.drop_last().take(m) =~= b.take(m));
            lemma_trimmed_stops_at_slash(b.drop_last(), m);
            assert(b.drop_last()[m] == b[m]);
        }
    } else {
        assert(trim_end_slashes(b) == b);
        assert(b.take(m).len() == m);
    }
}

/// The name of the node a record at `record_scope` sits beneath, when the
/// record is a capability record; `None` for any other record.
pub fn declarer(record_scope: &str) -> (r: Option<&str>)
    ensures
        r is Some <==> declarer_of(record_scope.spec_bytes()) is Some,
        r is Some ==> r.unwrap().spec_bytes() == declarer_of(record_scope.spec_bytes()).unwrap(),
{
    let parts = Scope::new(record_scope).segments();
    let ghost p = segments_of(path_of(record_scope.spec_bytes()));
    assert(texts_bytes(parts@).len() == parts@.len());
    let n = parts.len();
    if n >= 2 {
        let leaf = parts[n - 1];
        assert(leaf.spec_bytes() == p[n - 1]);
        proof {
            crate::text::lemma_bytes_determine_text(leaf@, LEAF@);
        }
        if same_text(leaf, LEAF) {
            assert(parts@[n - 2].spec_bytes() == p[n - 2]);
            return Some(parts[n - 2]);
        }
    }
    None
}

/// Whether every byte is a slash.
pub open spec fn all_slashes(s: Seq<u8>) -> bool {
    forall|i: int| 0 <= i < s.len() ==> s[i] == slash()
}

/// A text is what trimming its trailing slashes keeps, then slashes.
proof fn lemma_trim_end_split(s: Seq<u8>)
    ensures
        trim_end_slashes(s).len() <= s.len(),
        s == trim_end_slashes(s) + s.skip(trim_end_slashes(s).len() as int),
        all_slashes(s.skip(trim_end_slashes(s).len() as int)),
        trim_end_slashes(s).len() == 0 || trim_end_slashes(s).last() != slash(),
    decreases s.len(),
{
    if s.len() > 0 && s.last() == slash() {
        let d = s.drop_last();
        lemma_trim_end_split(d);
        let k = trim_end_slashes(d).len() as int;
        assert(s.skip(k) =~= d.skip(k).push(slash()));
        assert(s =~= d.push(slash()));
        assert((trim_end_slashes(d) + d.skip(k)).push(slash()) =~= trim_end_slashes(d) + d.skip(
            k,
        ).push(slash()));
        assert(s =~= trim_end_slashes(d) + s.skip(k));
    } else {
        assert(s.skip(s.len() as int) =~= Seq::<u8>::empty());
        assert(s =~= s + Seq::<u8>::empty());
    }
}

/// Trimming the leading slashes of slashes leaves nothing.
proof fn lemma_trim_start_all(x: Seq<u8>)
    requires
        all_slashes(x),
    ensures
        trim_start_slashes(x) == Seq::<u8>::empty(),
    decreases x.len(),
{
    if x.len() > 0 {
        lemma_trim_start_all(x.drop_first());
    } else {
        assert(x =~= Seq::<u8>::empty());
    }
}

/// Leading slashes end within a text that is not all slashes.
proof fn lemma_trim_start_concat(x: Seq<u8>, y: Seq<u8>)
    requires
        !all_slashes(x),
    ensures
        trim_start_slashes(x + y) == trim_start_slashes(x) + y,
        trim_start_slashes(x).len() > 0,
        trim_start_slashes(x).last() == x.last(),
    decreases x.len(),
{
    if x[0] == slash() {
        let w = choose|i: int| 0 <= i < x.len() && x[i] != slash();
        assert(x.drop_first()[w - 1] != slash());
        assert((x + y).drop_first() =~= x.drop_first() + y);
        assert((x + y)[0] == slash());
        lemma_trim_start_concat(x.drop_first(), y);
    }
}

/// Trailing slashes after a text that does not end in one are all that
/// trimming removes.
proof fn lemma_trim_end_of(p: Seq<u8>, s: Seq<u8>)
    requires
        p.len() > 0,
        p.last() != slash(),
        all_slashes(s),
    ensures
        trim_end_slashes(p + s) == p,
    decreases s.len(),
{
    if s.len() > 0 {
        assert((p + s).drop_last() =~= p + s.drop_last());
        assert((p + s).last() == slash());
        lemma_trim_end_of(p, s.drop_last());
    } else {
        assert(p + s =~= p);
    }
}

/// Where the first slash is, and what comes before it.
proof fn lemma_first_slash_range(x: Seq<u8>)
    ensures
        0 <= first_slash(x) <= x.len(),
        first_slash(x) < x.len() ==> x[first_slash(x)] == slash(),
        forall|k: int| 0 <= k < first_slash(x) ==> x[k] != slash(),
    decreases x.len(),
{
    if x.len() > 0 && x[0] != slash() {
        lemma_first_slash_range(x.drop_first());
        assert forall|k: int| 0 <= k < first_slash(x) implies x[k] != slash() by {
            if k > 0 {
                assert(x[k] == x.drop_first()[k - 1]);
            }
        }
    }
}

/// The first slash of two texts one after the other.
proof fn lemma_first_slash_concat(x: Seq<u8>, y: Seq<u8>)
    ensures
        first_slash(x + y) == if first_slash(x) < x.len() {
            first_slash(x)
        } else {
            x.len() + first_slash(y)
        },
    decreases x.len(),
{
    lemma_first_slash_range(x);
    if x.len() == 0 {
        assert(x + y =~= y);
    } else {
        assert((x + y).drop_first() =~= x.drop_first() + y);
        assert((x + y)[0] == x[0]);
        lemma_first_slash_concat(x.drop_first(), y);
    }
}

/// Any part of slashes is slashes.
proof fn lemma_slashes_skip(s: Seq<u8>, k: int)
    requires
        all_slashes(s),
        0 <= k <= s.len(),
    ensures
        all_slashes(s.skip(k)),
{
    assert forall|i: int| 0 <= i < s.skip(k).len() implies s.skip(k)[i] == slash() by {
        assert(s.skip(k)[i] == s[k + i]);
    }
}

/// After its scheme and authority, a node's scope and its capability scope
/// share what follows: the node's has slashes after it where the
/// capability's has `/capability` — unless the node's is slashes alone.
proof fn lemma_after_authority_split(node: Seq<u8>) -> (r: (Seq<u8>, Seq<u8>))
    ensures
        after_authority(node) == r.0 + r.1,
        all_slashes(r.1),
        r.0.len() == 0 || (r.0.last() != slash() && after_authority(
            trim_end_slashes(node) + slash_leaf(),
        ) == r.0 + slash_leaf()),
{
    let t = trim_end_slashes(node);
    let c = slash_leaf();
    lemma_trim_end_split(node);
    let tail = node.skip(t.len() as int);
    let tc = t + c;
    if node.len() >= 7 && node.take(7) == scheme() {
        let rest = node.skip(7);
        lemma_first_slash_range(rest);
        if t.len() <= 7 {
            assert forall|i: int| 0 <= i < rest.len() implies rest[i] == slash() by {
                assert(rest[i] == node[7 + i]);
                assert(node[7 + i] == tail[7 + i - t.len()]);
            }
            let i = first_slash(rest);
            if i < rest.len() {
                lemma_slashes_skip(rest, i + 1);
            }
            assert(Seq::<u8>::empty() + after_authority(node) =~= after_authority(node));
            (Seq::empty(), after_authority(node))
        } else {
            let u = t.skip(7);
            assert(t.take(7) =~= node.take(7));
            assert(tc.take(7) =~= t.take(7));
            assert(rest =~= u + tail);
            assert(tc.skip(7) =~= u + c);
            lemma_first_slash_concat(u, tail);
            lemma_first_slash_concat(u, c);
            lemma_first_slash_range(u);
            let i = first_slash(u);
            if i < u.len() {
                let a = u.skip(i + 1);
                assert(rest.skip(i + 1) =~= a + tail);
                assert(tc.skip(7).skip(i + 1) =~= a + c);
                if a.len() > 0 {
                    assert(a.last() == t.last());
                }
                (a, tail)
            } else {
                lemma_first_slash_range(tail);
                if tail.len() > 0 {
                    assert(first_slash(tail) == 0);
                    lemma_slashes_skip(tail, 1);
                    assert(rest.skip(u.len() as int + 1) =~= tail.skip(1));
                }
                assert(Seq::<u8>::empty() + after_authority(node) =~= after_authority(node));
                (Seq::empty(), after_authority(node))
            }
        }
    } else {
        if t.len() >= 7 {
            assert(tc.take(7) =~= t.take(7));
            assert(t.take(7) =~= node.take(7));
        } else if t.len() == 6 {
            assert(tc[5] == t[5]);
            assert(scheme()[5] == slash());
            assert(tc.take(7)[5] != scheme()[5]);
        } else {
            let j = t.len() as int + 1;
            assert(tc[j] == c[1]);
            assert(tc.take(7)[j] != scheme()[j]);
        }
        (t, tail)
    }
}

/// A node's capability record names the node: the record at the scope a
/// node publishes its capability at is a capability record, and the node it
/// sits beneath is the last segment of the node's own scope.
pub proof fn law_capability_record_names_its_node(node: Seq<u8>)
    requires
        segments_of(path_of(node)).len() >= 1,
    ensures
        declarer_of(trim_end_slashes(node) + slash_leaf()) == Some(segments_of(path_of(node)).last()),
{
    let c = slash_leaf();
    let leaf = c.drop_first();
    let (a, s) = lemma_after_authority_split(node);
    if a.len() == 0 {
        assert(a + s =~= s);
        lemma_trim_start_all(s);
        assert(segments_of(Seq::<u8>::empty()) =~= Seq::<Seq<u8>>::empty());
    }
    assert(!all_slashes(a));
    lemma_trim_start_concat(a, s);
    lemma_trim_start_concat(a, c);
    let p = trim_start_slashes(a);
    lemma_trim_end_of(p, s);
    assert((p + c).last() == c.last());
    assert(path_of(trim_end_slashes(node) + c) == p + c);
    assert(path_of(node) == p);
    assert(p + c =~= p + seq![slash()] + leaf);
    lemma_segments_split(p, leaf, Seq::empty());
    lemma_segments_without_slash(leaf, Seq::empty());
    assert(Seq::<u8>::empty() + leaf =~= leaf);
    lemma_leaf_bytes();
    let parts = segments_of(p + c);
    assert(parts =~= segments_of(p) + seq![leaf]);
}

} // verus!