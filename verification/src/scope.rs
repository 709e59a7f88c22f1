//! Scope: an Xmip URI over the execution tree, and the one question every
//! reader asks of it.
//!
//! A scope is `xmip://[userinfo@][host][:port]/path`, and the tree is the
//! path: an omitted host means estate-wide, so the scheme and the authority
//! go before anything is compared. A record at `xmip:///edge-01/transport/ftp`
//! sits beneath `xmip:///edge-01/transport` and beneath `xmip:///edge-01`.
//! Everything here is stated over the UTF-8 bytes of the text.

use vstd::prelude::*;
use vstd::string::*;
use vstd::utf8::*;
use crate::stage::{Stage, stage_named};
use crate::text::{bytes_of, lemma_bytes_determine_text, lemma_str_decodes, same_text, lemma_ascii_boundary, lemma_ends_are_boundaries, lemma_str_valid, slash, slice_str, trim_end_slashes, trim_start_slashes};

verus! {

/// The segment that marks a node beneath its cluster:
/// `xmip:///<cluster>/node/<name>`. A node called `node` is
/// `xmip:///C1/node/node`.
pub const NODE: &'static str = "node";

/// The bytes of the scheme every scope carries, lower-case: `xmip://`.
pub open spec fn scheme() -> Seq<u8> {
    seq![120u8, 109u8, 105u8, 112u8, 58u8, 47u8, 47u8]
}

/// The position of the first slash, or the length when there is none.
pub open spec fn first_slash(s: Seq<u8>) -> int
    decreases s.len(),
{
    if s.len() == 0 {
        0
    } else if s[0] == slash() {
        0
    } else {
        1 + first_slash(s.drop_first())
    }
}

/// The text after the scheme and the authority; text without the scheme is
/// taken whole.
pub open spec fn after_authority(text: Seq<u8>) -> Seq<u8> {
    if text.len() >= 7 && text.take(7) == scheme() {
        let rest = text.skip(7);
        let i = first_slash(rest);
        if i < rest.len() {
            rest.skip(i + 1)
        } else {
            Seq::empty()
        }
    } else {
        text
    }
}

/// The path a text names: after the scheme and the authority, with every
/// slash at either end removed. Empty is the root.
pub open spec fn path_of(text: Seq<u8>) -> Seq<u8> {
    trim_end_slashes(trim_start_slashes(after_authority(text)))
}

/// Whether `inner` is `outer` or sits beneath it: the root contains every
/// path, and otherwise `outer` must be followed in `inner` by the end or a
/// slash — a prefix of segments, not of characters.
pub open spec fn path_contains(outer: Seq<u8>, inner: Seq<u8>) -> bool {
    ||| outer.len() == 0
    ||| {
        &&& outer.len() <= inner.len()
        &&& inner.take(outer.len() as int) == outer
        &&& (inner.len() == outer.len() || inner[outer.len() as int] == slash())
    }
}

/// Whether the text `candidate` names a scope at or beneath the one `scope`
/// names: the one containment rule the snapshot and the activity log answer
/// by, [`Scope::contains`] on the paths the two texts read as.
pub open spec fn at_or_beneath(candidate: Seq<u8>, scope: Seq<u8>) -> bool {
    path_contains(path_of(scope), path_of(candidate))
}

/// The segments of a text, top first, collecting the current segment in
/// `current`: slashes separate them and an empty one is no segment.
pub open spec fn segments_from(s: Seq<u8>, current: Seq<u8>) -> Seq<Seq<u8>>
    decreases s.len(),
{
    if s.len() == 0 {
        if current.len() == 0 { Seq::empty() } else { seq![current] }
    } else if s[0] == slash() {
        (if current.len() == 0 { Seq::empty() } else { seq![current] }) + segments_from(
            s.drop_first(),
            Seq::empty(),
        )
    } else {
        segments_from(s.drop_first(), current.push(s[0]))
    }
}

/// The segments of a path, top first.
pub open spec fn segments_of(path: Seq<u8>) -> Seq<Seq<u8>> {
    segments_from(path, Seq::empty())
}

/// The node a path is on: the segment after the node marker beneath the
/// cluster, read by position.
pub open spec fn node_of(path: Seq<u8>) -> Option<Seq<u8>> {
    let parts = segments_of(path);
    if parts.len() >= 3 && parts[1] == bytes_of(NODE@) {
        Some(parts[2])
    } else {
        None
    }
}

/// The first stage named among `parts` at or after position `from`.
pub open spec fn first_stage(parts: Seq<Seq<u8>>, from: int) -> Option<Stage>
    decreases parts.len() - from,
{
    if from < 0 || from >= parts.len() {
        None
    } else {
        match stage_named(decode_utf8(parts[from])) {
            Some(stage) => Some(stage),
            None => first_stage(parts, from + 1),
        }
    }
}

/// The stage a path is on: the first stage word beneath its node, or, on no
/// node, beneath its cluster.
pub open spec fn stage_of(path: Seq<u8>) -> Option<Stage> {
    let beneath = if node_of(path) is Some { 3int } else { 1int };
    first_stage(segments_of(path), beneath)
}

/// The bytes of each text in a list.
pub open spec fn texts_bytes<'x>(v: Seq<&'x str>) -> Seq<Seq<u8>> {
    v.map_values(|x: &'x str| x.spec_bytes())
}

/// A scope, read as the path it names in the one tree. Borrowed from the
/// text it was read from. Two scopes are equal when they name the same path.
#[derive(Clone, Copy, Debug, PartialEq, Eq)]
pub struct Scope<'a> {
    /// The path after the scheme and the authority, with no slash at either
    /// end. Empty is the root.
    path: &'a str,
}

impl<'a> View for Scope<'a> {
    type V = Seq<u8>;

    /// The bytes of the path.
    closed spec fn view(&self) -> Seq<u8> {
        self.path.spec_bytes()
    }
}

/// The first slash is at `i` when none comes before it and one, or the
/// end, is there.
proof fn lemma_first_slash(s: Seq<u8>, i: int)
    requires
        0 <= i <= s.len(),
        forall|k: int| 0 <= k < i ==> s[k] != slash(),
        i == s.len() || s[i] == slash(),
    ensures
        first_slash(s) == i,
    decreases s.len(),
{
    if s.len() > 0 && i > 0 {
        lemma_first_slash(s.drop_first(), i - 1);
    }
}

impl<'a> Scope<'a> {
    /// Read a scope. Text without the scheme is taken as the path itself,
    /// and empty text, or `/`, is the root: an empty scope is above
    /// everything.
    pub fn new(text: &'a str) -> (r: Self)
        ensures
            r@ == path_of(text.spec_bytes()),
            r@.len() == 0 || (r@[0] != slash() && r@.last() != slash()),
    {
        proof {
            law_path_has_no_end_slash(text.spec_bytes());
        }
        let bytes = text.as_bytes();
        let n = bytes.len();
        let ghost b = bytes@;
        proof {
            lemma_str_valid(text);
        }
        let mut base: usize = 0;
        if n >= 7 && bytes[0] == 120 && bytes[1] == 109 && bytes[2] == 105 && bytes[3] == 112
            && bytes[4] == 58 && bytes[5] == 47 && bytes[6] == 47 {
            assert(b.take(7) =~= scheme());
            let mut j: usize = 7;
            while j < n && bytes[j] != 47
                invariant
                    7 <= j <= n,
                    n == b.len(),
                    bytes@ == b,
                    forall|k: int| 7 <= k < j ==> b[k] != slash(),
                decreases n - j,
            {
                j = j + 1;
            }
            proof {
                let rest = b.skip(7);
                lemma_first_slash(rest, j - 7);
            }
            if j < n {
                base = j + 1;
                assert(b.skip(7).skip(j - 7 + 1) =~= b.subrange(base as int, n as int));
            } else {
                base = n;
                assert(b.subrange(n as int, n as int) =~= Seq::<u8>::empty());
            }
        } else {
            assert(b.subrange(0, n as int) =~= b);
        }
        assert(after_authority(b) == b.subrange(base as int, n as int));
        assert(base == 0 || base == n || b[base - 1] == slash());
        let mut lo = base;
        while lo < n && bytes[lo] == 47
            invariant
                base <= lo <= n,
                n == b.len(),
                bytes@ == b,
                lo == base || b[lo - 1] == slash(),
                base == 0 || base == n || b[base - 1] == slash(),
                trim_start_slashes(b.subrange(base as int, n as int)) == trim_start_slashes(
                    b.subrange(lo as int, n as int),
                ),
            decreases n - lo,
        {
            assert(b.subrange(lo as int, n as int).drop_first() =~= b.subrange(
                lo + 1,
                n as int,
            ));
            lo = lo + 1;
        }
        assert(trim_start_slashes(b.subrange(lo as int, n as int)) == b.subrange(
            lo as int,
            n as int,
        ));
        let mut hi = n;
        while hi > lo && bytes[hi - 1] == 47
            invariant
                lo <= hi <= n,
                n == b.len(),
                bytes@ == b,
                hi == n || b[hi as int] == slash(),
                trim_end_slashes(b.subrange(lo as int, n as int)) == trim_end_slashes(
                    b.subrange(lo as int, hi as int),
                ),
            decreases hi,
        {
            assert(b.subrange(lo as int, hi as int).drop_last() =~= b.subrange(
                lo as int,
                hi - 1,
            ));
            hi = hi - 1;
        }
        proof {
            lemma_ends_are_boundaries(b);
            if lo < n && lo > 0 && lo > base {
                lemma_ascii_boundary(b, lo - 1);
            }
            if lo < n && lo > 0 && lo == base {
                lemma_ascii_boundary(b, base - 1);
            }
            if hi < n {
                lemma_ascii_boundary(b, hi as int);
            }
            if hi == lo && lo > 0 && lo < n {
                assert(is_char_boundary(b, lo as int));
            }
        }
        let path = slice_str(text, lo, hi);
        Scope { path }
    }

    /// The path, without the scheme, the authority or a slash at either end.
    pub fn path(self) -> (r: &'a str)
        ensures
            r.spec_bytes() == self@,
    {
        self.path
    }

    /// Whether this is the root, which contains every scope.
    pub fn is_root(self) -> (r: bool)
        ensures
            r == (self@.len() == 0),
    {
        self.path.as_bytes().len() == 0
    }

    /// Whether `other` is this scope or sits beneath it in the tree: a
    /// prefix of segments, not of characters — `xmip:///ab` is not beneath
    /// `xmip:///a`.
    pub fn contains(self, other: Scope<'_>) -> (r: bool)
        ensures
            r == path_contains(self@, other@),
    {
        let outer = self.path.as_bytes();
        let inner = other.path.as_bytes();
        let n = outer.len();
        if n == 0 {
            return true;
        }
        if n > inner.len() {
            return false;
        }
        let mut i: usize = 0;
        while i < n
            invariant
                n == outer@.len(),
                n <= inner@.len(),
                outer@ == self@,
                inner@ == other@,
                i <= n,
                forall|k: int| 0 <= k < i ==> outer@[k] == inner@[k],
            decreases n - i,
        {
            if outer[i] != inner[i] {
                assert(inner@.take(n as int)[i as int] != outer@[i as int]);
                assert(inner@.take(n as int) != outer@);
                return false;
            }
            i = i + 1;
        }
        assert(inner@.take(n as int) =~= outer@);
        inner.len() == n || inner[n] == 47
    }

    /// The segments of the path, top first: `xmip:///edge-01/receive/orders`
    /// is `edge-01`, `receive`, `orders`. An empty segment — `a//b` — is no
    /// segment, and the root has none.
    pub fn segments(self) -> (r: Vec<&'a str>)
        ensures
            texts_bytes(r@) == segments_of(self@),
    {
        let bytes = self.path.as_bytes();
        let n = bytes.len();
        let ghost b = bytes@;
        proof {
            lemma_str_valid(self.path);
            lemma_ends_are_boundaries(b);
        }
        let mut parts: Vec<&'a str> = Vec::new();
        let mut start: usize = 0;
        let mut i: usize = 0;
        assert(b.skip(0) =~= b);
        assert(b.subrange(0, 0) =~= Seq::<u8>::empty());
        while i < n
            invariant
                start <= i <= n,
                n == b.len(),
                bytes@ == b,
                b == self.path.spec_bytes(),
                valid_utf8(b),
                is_char_boundary(b, 0),
                is_char_boundary(b, n as int),
                start == 0 || b[start - 1] == slash(),
                forall|k: int| start <= k < i ==> b[k] != slash(),
                texts_bytes(parts@) + segments_from(b.skip(i as int), b.subrange(start as int, i as int))
                    == segments_of(b),
            decreases n - i,
        {
            let ghost cur = b.subrange(start as int, i as int);
            let ghost before = parts@;
            assert(b.skip(i as int).drop_first() =~= b.skip(i + 1));
            if bytes[i] == 47 {
                if i > start {
                    proof {
                        if start > 0 {
                            lemma_ascii_boundary(b, start - 1);
                        }
                        lemma_ascii_boundary(b, i as int);
                    }
                    let part = slice_str(self.path, start, i);
                    parts.push(part);
                    assert(texts_bytes(parts@) =~= texts_bytes(before).push(cur));
                    assert(texts_bytes(parts@) + segments_from(b.skip(i + 1), Seq::empty())
                        =~= texts_bytes(before) + (seq![cur] + segments_from(b.skip(i + 1), Seq::empty())));
                } else {
                    assert(cur.len() == 0);
                    assert(Seq::<Seq<u8>>::empty() + segments_from(b.skip(i + 1), Seq::empty())
                        =~= segments_from(b.skip(i + 1), Seq::empty()));
                }
                i = i + 1;
                start = i;
                assert(b.subrange(start as int, i as int) =~= Seq::<u8>::empty());
            } else {
                assert(cur.push(b[i as int]) =~= b.subrange(start as int, i + 1));
                i = i + 1;
            }
        }
        let ghost cur = b.subrange(start as int, n as int);
        let ghost before = parts@;
        if n > start {
            proof {
                if start > 0 {
                    lemma_ascii_boundary(b, start - 1);
                }
            }
            let part = slice_str(self.path, start, n);
            parts.push(part);
            assert(texts_bytes(parts@) =~= texts_bytes(before).push(cur));
            assert(texts_bytes(before) + seq![cur] =~= texts_bytes(before).push(cur));
        } else {
            assert(texts_bytes(before) + Seq::<Seq<u8>>::empty() =~= texts_bytes(before));
        }
        parts
    }

    /// The node this scope is on: the segment after the node marker beneath
    /// the cluster, `alpha` in `xmip:///C1/node/alpha/receive/tcp`. `None`
    /// for a scope on no node: the cluster is never a node.
    pub fn node(self) -> (r: Option<&'a str>)
        ensures
            r is Some <==> node_of(self@) is Some,
            r is Some ==> r.unwrap().spec_bytes() == node_of(self@).unwrap(),
    {
        let parts = self.segments();
        assert(texts_bytes(parts@).len() == parts@.len());
        if parts.len() >= 3 {
            let marker = parts[1];
            assert(marker.spec_bytes() == segments_of(self@)[1]);
            proof {
                lemma_bytes_determine_text(marker@, NODE@);
            }
            if same_text(marker, NODE) {
                assert(parts@[2].spec_bytes() == segments_of(self@)[2]);
                return Some(parts[2]);
            }
        }
        None
    }

    /// The stage of the message path this scope is on: the first stage word
    /// beneath its node, or, on no node, beneath its cluster. A cluster's or
    /// a node's name is never read as a stage.
    pub fn stage(self) -> (r: Option<Stage>)
        ensures
            r == stage_of(self@),
            first_stage_word(
                segments_of(self@),
                if node_of(self@) is Some { 3int } else { 1int },
                r,
            ),
    {
        proof {
            law_stage_is_the_first_stage_word(
                segments_of(self@),
                if node_of(self@) is Some { 3int } else { 1int },
            );
        }
        let beneath: usize = if self.node().is_some() { 3 } else { 1 };
        let parts = self.segments();
        let ghost p = segments_of(self@);
        assert(texts_bytes(parts@).len() == parts@.len());
        let mut k = beneath;
        while k < parts.len()
            invariant
                beneath <= k,
                beneath == (if node_of(self@) is Some { 3int } else { 1int }),
                texts_bytes(parts@) == p,
                p == segments_of(self@),
                first_stage(p, beneath as int) == first_stage(p, k as int),
                first_stage_word(p, beneath as int, first_stage(p, beneath as int)),
            decreases parts@.len() - k,
        {
            let part = parts[k];
            assert(part.spec_bytes() == p[k as int]);
            proof {
                lemma_str_decodes(part);
            }
            let found = Stage::named(part);
            assert(found == stage_named(decode_utf8(p[k as int])));
            if found.is_some() {
                return found;
            }
            k = k + 1;
        }
        None
    }
}

/// The segments of a text that has a slash in it are those before the
/// slash and then those after it: the slash ends the current segment.
pub(crate) proof fn lemma_segments_split(x: Seq<u8>, r: Seq<u8>, current: Seq<u8>)
    ensures
        segments_from(x + seq![slash()] + r, current) == segments_from(x, current)
            + segments_from(r, Seq::empty()),
    decreases x.len(),
{
    let whole = x + seq![slash()] + r;
    let flushed = if current.len() == 0 { Seq::<Seq<u8>>::empty() } else { seq![current] };
    if x.len() == 0 {
        assert(whole.drop_first() =~= r);
        assert(whole[0] == slash());
    } else {
        assert(whole.drop_first() =~= x.drop_first() + seq![slash()] + r);
        assert(whole[0] == x[0]);
        if x[0] == slash() {
            lemma_segments_split(x.drop_first(), r, Seq::empty());
            assert(flushed + (segments_from(x.drop_first(), Seq::empty()) + segments_from(
                r,
                Seq::empty(),
            )) =~= (flushed + segments_from(x.drop_first(), Seq::empty())) + segments_from(
                r,
                Seq::empty(),
            ));
        } else {
            lemma_segments_split(x.drop_first(), r, current.push(x[0]));
        }
    }
}

/// A scope is at and beneath itself.
pub proof fn law_contains_itself(scope: Scope)
    ensures
        path_contains(scope@, scope@),
{
    lemma_path_contains_itself(scope@);
}

/// Every text names a scope at and beneath itself.
pub proof fn law_contains_itself_at(text: Seq<u8>)
    ensures
        at_or_beneath(text, text),
{
    lemma_path_contains_itself(path_of(text));
}

/// Every path contains itself.
proof fn lemma_path_contains_itself(p: Seq<u8>)
    ensures
        path_contains(p, p),
{
    assert(p.take(p.len() as int) =~= p);
}

/// The root, empty text, contains every scope.
pub proof fn law_root_contains_everything(root: Scope, scope: Scope)
    requires
        root@.len() == 0,
    ensures
        path_contains(root@, scope@),
{
}

/// What is beneath a scope is beneath every scope above that one: asking
/// for a node gets everything beneath each of its stages.
pub proof fn law_contains_is_transitive(a: Scope, b: Scope, c: Scope)
    requires
        path_contains(a@, b@),
        path_contains(b@, c@),
    ensures
        path_contains(a@, c@),
{
    lemma_path_contains_transitive(a@, b@, c@);
}

/// The one containment rule, on texts: what is at or beneath a text that
/// is at or beneath another is at or beneath that other.
pub proof fn lemma_beneath_transitive(candidate: Seq<u8>, middle: Seq<u8>, scope: Seq<u8>)
    requires
        at_or_beneath(candidate, middle),
        at_or_beneath(middle, scope),
    ensures
        at_or_beneath(candidate, scope),
{
    lemma_path_contains_transitive(path_of(scope), path_of(middle), path_of(candidate));
}

/// Containment of paths is transitive.
proof fn lemma_path_contains_transitive(x: Seq<u8>, y: Seq<u8>, z: Seq<u8>)
    requires
        path_contains(x, y),
        path_contains(y, z),
    ensures
        path_contains(x, z),
{
    if x.len() > 0 {
        assert(z.take(x.len() as int) =~= z.take(y.len() as int).take(x.len() as int));
        assert(y.take(y.len() as int) =~= y);
        if z.len() > x.len() {
            if x.len() < y.len() {
                assert(z.take(y.len() as int)[x.len() as int] == z[x.len() as int]);
            } else {
                assert(y =~= x);
            }
        }
    }
}

/// A scope is never above what it is beneath: two scopes that each
/// contain the other are one.
pub proof fn law_never_above(a: Scope, b: Scope)
    requires
        path_contains(a@, b@),
        path_contains(b@, a@),
    ensures
        a@ == b@,
{
    if a@.len() == 0 {
        assert(b@ =~= a@);
    } else {
        assert(b@.take(a@.len() as int) =~= b@);
    }
}

/// Containment goes by segment, never by character: the segments of a
/// scope begin every scope it contains.
pub proof fn law_contains_by_segments(outer: Scope, inner: Scope)
    requires
        path_contains(outer@, inner@),
    ensures
        segments_of(outer@).is_prefix_of(segments_of(inner@)),
{
    let (x, y) = (outer@, inner@);
    if x.len() == 0 {
        assert(segments_of(x) =~= Seq::<Seq<u8>>::empty());
    } else if y.len() == x.len() {
        assert(y =~= y.take(x.len() as int));
    } else {
        let rest = y.skip(x.len() as int + 1);
        assert(y =~= x + seq![slash()] + rest);
        lemma_segments_split(x, rest, Seq::empty());
    }
    assert(segments_of(x) =~= segments_of(y).subrange(0, segments_of(x).len() as int));
}

/// Whether a path has no empty segment: no slash at either end and no two
/// slashes together.
pub open spec fn without_empty_segment(p: Seq<u8>) -> bool {
    p.len() == 0 || {
        &&& p[0] != slash()
        &&& p.last() != slash()
        &&& forall|i: int| 0 <= i < p.len() - 1 && #[trigger] p[i] == slash() ==> p[i + 1] != slash()
    }
}

/// Segments joined again, a slash between each two.
pub open spec fn joined(parts: Seq<Seq<u8>>) -> Seq<u8>
    decreases parts.len(),
{
    if parts.len() == 0 {
        Seq::empty()
    } else if parts.len() == 1 {
        parts[0]
    } else {
        parts[0] + seq![slash()] + joined(parts.drop_first())
    }
}

/// A text with no slash is one segment, or none when it is empty.
pub(crate) proof fn lemma_segments_without_slash(x: Seq<u8>, current: Seq<u8>)
    requires
        forall|i: int| 0 <= i < x.len() ==> x[i] != slash(),
    ensures
        segments_from(x, current) == if current.len() + x.len() == 0 {
            Seq::<Seq<u8>>::empty()
        } else {
            seq![current + x]
        },
    decreases x.len(),
{
    if x.len() > 0 {
        lemma_segments_without_slash(x.drop_first(), current.push(x[0]));
        assert(current.push(x[0]) + x.drop_first() =~= current + x);
    } else {
        assert(current + x =~= current);
    }
}

/// A path with no empty segment is its segments joined again.
proof fn lemma_joined_segments(p: Seq<u8>)
    requires
        without_empty_segment(p),
    ensures
        joined(segments_of(p)) == p,
        p.len() > 0 ==> segments_of(p).len() > 0,
    decreases p.len(),
{
    if p.len() > 0 {
        if exists|i: int| 0 <= i < p.len() && p[i] == slash() {
            let i = choose|i: int| 0 <= i < p.len() && p[i] == slash();
            let first = lemma_first_slash_exists(p, i);
            let x = p.take(first);
            let rest = p.skip(first + 1);
            assert(p =~= x + seq![slash()] + rest);
            assert(first > 0);
            assert(first < p.len() - 1);
            assert(rest[0] == p[first + 1]);
            assert(rest.last() == p.last());
            assert forall|j: int| 0 <= j < rest.len() - 1 && #[trigger] rest[j] == slash() implies rest[j + 1] != slash() by {
                assert(rest[j] == p[first + 1 + j]);
                assert(rest[j + 1] == p[first + 2 + j]);
            }
            lemma_joined_segments(rest);
            lemma_segments_split(x, rest, Seq::empty());
            lemma_segments_without_slash(x, Seq::empty());
            assert(Seq::<u8>::empty() + x =~= x);
            let parts = segments_of(p);
            assert(parts =~= seq![x] + segments_of(rest));
            assert(parts.drop_first() =~= segments_of(rest));
        } else {
            lemma_segments_without_slash(p, Seq::empty());
            assert(Seq::<u8>::empty() + p =~= p);
        }
    }
}

/// The first slash of a text that has one at `i`.
proof fn lemma_first_slash_exists(p: Seq<u8>, i: int) -> (first: int)
    requires
        0 <= i < p.len(),
        p[i] == slash(),
    ensures
        0 <= first <= i,
        p[first] == slash(),
        forall|k: int| 0 <= k < first ==> p[k] != slash(),
    decreases i,
{
    if exists|k: int| 0 <= k < i && p[k] == slash() {
        let k = choose|k: int| 0 <= k < i && p[k] == slash();
        lemma_first_slash_exists(p, k)
    } else {
        i
    }
}

/// Joining two runs of segments puts a slash between them.
proof fn lemma_joined_append(a: Seq<Seq<u8>>, b: Seq<Seq<u8>>)
    requires
        a.len() > 0,
        b.len() > 0,
    ensures
        joined(a + b) == joined(a) + seq![slash()] + joined(b),
    decreases a.len(),
{
    if a.len() == 1 {
        assert((a + b).drop_first() =~= b);
    } else {
        lemma_joined_append(a.drop_first(), b);
        assert((a + b).drop_first() =~= a.drop_first() + b);
        assert(a[0] + seq![slash()] + (joined(a.drop_first()) + seq![slash()] + joined(b))
            =~= (a[0] + seq![slash()] + joined(a.drop_first())) + seq![slash()] + joined(b));
    }
}

/// Containment is by segment: between paths with no empty segment, a
/// scope whose segments begin another's contains it.
pub proof fn law_segments_begin_what_is_contained(outer: Scope, inner: Scope)
    requires
        without_empty_segment(outer@),
        without_empty_segment(inner@),
        segments_of(outer@).is_prefix_of(segments_of(inner@)),
    ensures
        path_contains(outer@, inner@),
{
    lemma_segments_begin(outer@, inner@);
}

/// Between paths with no empty segment, a segment prefix is containment.
proof fn lemma_segments_begin(x: Seq<u8>, y: Seq<u8>)
    requires
        without_empty_segment(x),
        without_empty_segment(y),
        segments_of(x).is_prefix_of(segments_of(y)),
    ensures
        path_contains(x, y),
{
    let (sx, sy) = (segments_of(x), segments_of(y));
    lemma_joined_segments(x);
    lemma_joined_segments(y);
    if x.len() > 0 {
        if sy.len() == sx.len() {
            assert(sy =~= sx);
            assert(y.take(x.len() as int) =~= y);
        } else {
            let rest = sy.skip(sx.len() as int);
            assert(sy =~= sx + rest);
            lemma_joined_append(sx, rest);
            assert(y.take(x.len() as int) =~= x);
            assert(y[x.len() as int] == slash());
        }
    }
}

/// Whether no two slashes stand together in a path.
pub open spec fn without_double_slash(p: Seq<u8>) -> bool {
    forall|i: int| 0 <= i < p.len() - 1 && #[trigger] p[i] == slash() ==> p[i + 1] != slash()
}

/// Trimming leading slashes leaves a text that does not begin with one.
proof fn lemma_trim_start_first(x: Seq<u8>)
    ensures
        trim_start_slashes(x).len() == 0 || trim_start_slashes(x)[0] != slash(),
    decreases x.len(),
{
    if x.len() > 0 && x[0] == slash() {
        lemma_trim_start_first(x.drop_first());
    }
}

/// Trimming trailing slashes keeps a beginning of the text that does not
/// end with one.
proof fn lemma_trim_end_prefix(y: Seq<u8>)
    ensures
        trim_end_slashes(y).len() <= y.len(),
        trim_end_slashes(y) == y.take(trim_end_slashes(y).len() as int),
        trim_end_slashes(y).len() == 0 || trim_end_slashes(y).last() != slash(),
    decreases y.len(),
{
    if y.len() > 0 && y.last() == slash() {
        lemma_trim_end_prefix(y.drop_last());
        assert(y.drop_last().take(trim_end_slashes(y).len() as int) =~= y.take(
            trim_end_slashes(y).len() as int,
        ));
    } else {
        assert(y.take(y.len() as int) =~= y);
    }
}

/// A scope's path has no slash at either end: `Scope::new` reads every
/// text to such a path.
pub proof fn law_path_has_no_end_slash(text: Seq<u8>)
    ensures
        path_of(text).len() == 0 || (path_of(text)[0] != slash() && path_of(text).last() != slash()),
{
    let a = after_authority(text);
    lemma_trim_start_first(a);
    let x = trim_start_slashes(a);
    lemma_trim_end_prefix(x);
    if path_of(text).len() > 0 {
        assert(path_of(text)[0] == x[0]);
    }
}

/// Containment is by segment: between texts whose paths have no two
/// slashes together, a scope whose segments begin another's contains it.
pub proof fn law_segments_begin_what_is_contained_at(outer: Seq<u8>, inner: Seq<u8>)
    requires
        without_double_slash(path_of(outer)),
        without_double_slash(path_of(inner)),
        segments_of(path_of(outer)).is_prefix_of(segments_of(path_of(inner))),
    ensures
        at_or_beneath(inner, outer),
{
    law_path_has_no_end_slash(outer);
    law_path_has_no_end_slash(inner);
    lemma_segments_begin(path_of(outer), path_of(inner));
}

/// Whether `r` is the stage the first stage word among `parts` at or after
/// position `from` names: `None` exactly when no segment there is a stage
/// word, and otherwise the stage of a segment with no stage word before it
/// — whatever segments follow.
pub open spec fn first_stage_word(parts: Seq<Seq<u8>>, from: int, r: Option<Stage>) -> bool {
    &&& r is None <==> forall|k: int|
        from <= k < parts.len() ==> stage_named(decode_utf8(#[trigger] parts[k])) is None
    &&& r matches Some(stage) ==> exists|k: int|
        from <= k < parts.len() && stage_named(decode_utf8(#[trigger] parts[k])) == Some(stage)
            && forall|m: int| from <= m < k ==> stage_named(decode_utf8(#[trigger] parts[m])) is None
}

/// The stage of a scope is its first stage word, never a later one: the
/// search from a position answers the first segment there that names a
/// stage, and none when no segment does.
pub proof fn law_stage_is_the_first_stage_word(parts: Seq<Seq<u8>>, from: int)
    requires
        from >= 0,
    ensures
        first_stage_word(parts, from, first_stage(parts, from)),
    decreases parts.len() - from,
{
    if from < parts.len() {
        law_stage_is_the_first_stage_word(parts, from + 1);
        match stage_named(decode_utf8(parts[from])) {
            Some(stage) => {
                assert(stage_named(decode_utf8(parts[from])) == Some(stage));
            },
            None => {
                assert forall|k: int| from <= k < parts.len() && (forall|j: int|
                    from + 1 <= j < parts.len() ==> stage_named(decode_utf8(#[trigger] parts[j])) is None)
                    implies stage_named(decode_utf8(#[trigger] parts[k])) is None by {
                    if k > from {
                    }
                }
                if first_stage(parts, from) is Some {
                    let stage = first_stage(parts, from).unwrap();
                    let k = choose|k: int|
                        from + 1 <= k < parts.len() && stage_named(decode_utf8(#[trigger] parts[k])) == Some(stage)
                            && forall|m: int| from + 1 <= m < k ==> stage_named(decode_utf8(#[trigger] parts[m])) is None;
                    assert forall|m: int| from <= m < k implies stage_named(decode_utf8(#[trigger] parts[m])) is None by {
                        if m > from {
                        }
                    }
                }
            },
        }
    }
}

} // verus!