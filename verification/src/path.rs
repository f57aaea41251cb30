//! Tree paths: parsing, key rules, canonical keys and volatile patterns.
use crate::text;
use crate::text::{
    chars_of, clone_texts, concat, concat3, same_text, split_text, starts_with, text_of, trim_end_of,
    trim_start_of,
};
use vstd::prelude::*;
use vstd::string::*;

verus! {

broadcast use vstd::string::group_string_axioms;

/// Longest key in bytes.
pub const MAX_KEY_BYTES: usize = 768;

/// The non-empty texts of `parts`, in order.
pub open spec fn nonempty(parts: Seq<Seq<char>>) -> Seq<Seq<char>>
    decreases parts.len(),
{
    if parts.len() == 0 {
        Seq::empty()
    } else if parts.last().len() == 0 {
        nonempty(parts.drop_last())
    } else {
        nonempty(parts.drop_last()).push(parts.last())
    }
}

/// The segments a path text addresses: its slash-separated parts, empty ones left out.
pub open spec fn segments(s: Seq<char>) -> Seq<Seq<char>> {
    nonempty(text::split(s, '/'))
}

/// Whether `p` is an initial stretch of `q`.
pub open spec fn is_prefix(p: Seq<Seq<char>>, q: Seq<Seq<char>>) -> bool {
    p.len() <= q.len() && q.take(p.len() as int) == p
}

/// Whether one of two paths leads through the other.
pub open spec fn related(p: Seq<Seq<char>>, q: Seq<Seq<char>>) -> bool {
    is_prefix(p, q) || is_prefix(q, p)
}

/// Characters that no key may hold.
pub open spec fn forbidden_in_key(c: char) -> bool {
    c <= '\u{1f}' || ('\u{7f}' <= c && c <= '\u{9f}') || c == '$' || c == '#' || c == '['
        || c == ']' || c == '/'
}

/// A key is not empty, holds no forbidden character, has a dot at most in front,
/// and takes at most `MAX_KEY_BYTES` bytes.
pub open spec fn valid_key(k: Seq<char>) -> bool {
    &&& 0 < k.len()
    &&& text::byte_len(k) <= MAX_KEY_BYTES
    &&& forall|i: int|
        0 <= i < k.len() ==> !forbidden_in_key(#[trigger] k[i]) && (k[i] == '.' ==> i == 0)
}

/// A path text with its one leading slash taken off.
pub open spec fn path_body(s: Seq<char>) -> Seq<char> {
    if s.len() > 0 && s[0] == '/' {
        s.drop_first()
    } else {
        s
    }
}

/// A path is the root, or a chain of at most `max_depth` valid keys.
pub open spec fn valid_path(s: Seq<char>, max_depth: nat) -> bool {
    let parts = text::split(path_body(s), '/');
    path_body(s).len() == 0 || (parts.len() <= max_depth && forall|i: int|
        0 <= i < parts.len() ==> valid_key(#[trigger] parts[i]))
}

/// The canonical key of a path text: one leading slash, root as a bare slash.
pub open spec fn path_key(s: Seq<char>) -> Seq<char> {
    seq!['/'] + text::trim_start(s, '/')
}

/// The path text of `key` under `base`.
pub open spec fn child_path(base: Seq<char>, key: Seq<char>) -> Seq<char> {
    text::trim_end(base, '/') + seq!['/'] + key
}

/// A pattern covers a path when the path is at least as long and every pattern
/// segment is a star or equals the path's segment.
pub open spec fn pattern_covers(
    path: Seq<Seq<char>>,
    pattern: Seq<Seq<char>>,
) -> bool {
    pattern.len() <= path.len() && forall|i: int|
        0 <= i < pattern.len() ==> (#[trigger] pattern[i] == seq!['*'] || pattern[i] == path[i])
}

/// The path text of a chain of segments.
pub open spec fn path_text(p: Seq<Seq<char>>) -> Seq<char>
    decreases p.len(),
{
    if p.len() == 0 {
        seq!['/']
    } else if p.len() == 1 {
        seq!['/'] + p[0]
    } else {
        path_text(p.drop_last()) + seq!['/'] + p.last()
    }
}

/// A chain of segments from the root of the tree.
pub struct Path {
    pub segments: Vec<String>,
}

impl View for Path {
    type V = Seq<Seq<char>>;

    open spec fn view(&self) -> Seq<Seq<char>> {
        text::texts(self.segments@)
    }
}

/// Why a key or path was turned down: it breaks the key rules.
#[derive(Clone, Copy, PartialEq, Eq, Structural)]
pub struct KeyError;

impl Path {
    /// The path that a text addresses.
    pub fn parse(text: &str) -> (r: Path)
        ensures
            r@ == segments(text@),
    {
        let parts = split_text(text, '/');
        let mut out: Vec<String> = Vec::new();
        let mut i: usize = 0;
        while i < parts.len()
            invariant
                i <= parts.len(),
                text::texts(out@) == nonempty(text::texts(parts@).take(i as int)),
            decreases parts.len() - i,
        {
            let ghost ts = text::texts(parts@);
            assert(ts.take(i + 1).drop_last() =~= ts.take(i as int));
            assert(ts.take(i + 1).last() == parts@[i as int]@);
            let ghost before = out@;
            if !parts[i].as_str().is_empty() {
                out.push(parts[i].clone());
                assert(text::texts(out@) =~= text::texts(before).push(parts@[i as int]@));
            }
            i = i + 1;
        }
        assert(text::texts(parts@).take(i as int) =~= text::texts(parts@));
        Path { segments: out }
    }

    /// The root path.
    pub fn root() -> (r: Path)
        ensures
            r@ == Seq::<Seq<char>>::empty(),
    {
        let r = Path { segments: Vec::new() };
        assert(r@ =~= Seq::<Seq<char>>::empty());
        r
    }

    /// Whether this is the root path.
    pub fn is_root(&self) -> (r: bool)
        ensures
            r == (self@.len() == 0),
    {
        self.segments.len() == 0
    }

    /// The path one segment shorter, if there is one.
    pub fn parent(&self) -> (r: Option<Path>)
        ensures
            match r {
                Some(p) => self@.len() > 0 && p@ == self@.drop_last(),
                None => self@.len() == 0,
            },
    {
        if self.segments.len() == 0 {
            return None;
        }
        let p = self.take(self.segments.len() - 1);
        assert(self@.take(self@.len() - 1) =~= self@.drop_last());
        Some(p)
    }

    /// The first `n` segments.
    pub fn take(&self, n: usize) -> (r: Path)
        requires
            n <= self@.len(),
        ensures
            r@ == self@.take(n as int),
    {
        let mut out: Vec<String> = Vec::new();
        let mut i: usize = 0;
        while i < n
            invariant
                i <= n <= self.segments@.len(),
                out@ == self.segments@.take(i as int),
            decreases n - i,
        {
            out.push(self.segments[i].clone());
            i = i + 1;
        }
        assert(text::texts(out@) =~= self@.take(n as int));
        Path { segments: out }
    }

    /// A copy of this path.
    pub fn copy(&self) -> (r: Path)
        ensures
            r@ == self@,
    {
        Path { segments: clone_texts(&self.segments) }
    }

    /// This path followed by one more segment.
    pub fn child(&self, key: &str) -> (r: Path)
        ensures
            r@ == self@.push(key@),
    {
        let mut segs = clone_texts(&self.segments);
        segs.push(key.to_owned());
        assert(text::texts(segs@) =~= self@.push(key@));
        Path { segments: segs }
    }

    /// This path followed by the segments of `other`.
    pub fn join(&self, other: &Path) -> (r: Path)
        ensures
            r@ == self@ + other@,
    {
        let mut segs = clone_texts(&self.segments);
        let mut i: usize = 0;
        while i < other.segments.len()
            invariant
                i <= other.segments@.len(),
                segs@ == self.segments@ + other.segments@.take(i as int),
            decreases other.segments@.len() - i,
        {
            segs.push(other.segments[i].clone());
            i = i + 1;
        }
        assert(text::texts(segs@) =~= self@ + other@);
        Path { segments: segs }
    }

    /// Whether both paths have the same segments.
    pub fn same(&self, other: &Path) -> (r: bool)
        ensures
            r == (self@ == other@),
    {
        if self.segments.len() != other.segments.len() {
            return false;
        }
        let r = self.leads_to(other);
        assert(other@.take(self@.len() as int) =~= other@);
        r
    }

    /// Whether this path is an initial stretch of `other`.
    pub fn leads_to(&self, other: &Path) -> (r: bool)
        ensures
            r == is_prefix(self@, other@),
    {
        if self.segments.len() > other.segments.len() {
            return false;
        }
        let mut i: usize = 0;
        while i < self.segments.len()
            invariant
                i <= self.segments@.len() <= other.segments@.len(),
                forall|j: int| 0 <= j < i ==> self.segments@[j]@ == other.segments@[j]@,
            decreases self.segments@.len() - i,
        {
            if !same_text(self.segments[i].as_str(), other.segments[i].as_str()) {
                assert(other@.take(self@.len() as int)[i as int] != self@[i as int]);
                return false;
            }
            i = i + 1;
        }
        assert(other@.take(self@.len() as int) =~= self@);
        true
    }

    /// The canonical text of this path.
    pub fn to_text(&self) -> (r: String)
        ensures
            r@ == path_text(self@),
    {
        let n = self.segments.len();
        if n == 0 {
            let mut out = String::new();
            out.push('/');
            assert(out@ =~= seq!['/']);
            return out;
        }
        let mut out = String::new();
        let mut i: usize = 0;
        while i < n
            invariant
                i <= n == self.segments@.len(),
                i == 0 ==> out@.len() == 0,
                i > 0 ==> out@ == path_text(self@.take(i as int)),
            decreases n - i,
        {
            let ghost before = out@;
            out.push('/');
            out.append(self.segments[i].as_str());
            assert(self@.take(i + 1).last() == self.segments@[i as int]@);
            assert(self@.take(i + 1).drop_last() =~= self@.take(i as int));
            if i == 0 {
                assert(self@.take(1)[0] == self.segments@[0]@);
                assert(out@ =~= seq!['/'] + self.segments@[0]@);
            } else {
                assert(out@ =~= before + seq!['/'] + self.segments@[i as int]@);
            }
            i = i + 1;
        }
        assert(self@.take(n as int) =~= self@);
        out
    }
}

/// Number of segments a path text addresses.
pub fn path_depth(path: &str) -> (r: usize)
    ensures
        r == segments(path@).len(),
{
    Path::parse(path).segments.len()
}

/// Checks one key against the key rules.
pub fn validate_key(key: &str) -> (r: Result<(), KeyError>)
    ensures
        r is Ok <==> valid_key(key@),
{
    if key.is_empty() || !within_key_bytes(key) {
        return Err(KeyError);
    }
    let cs = chars_of(key);
    let mut i: usize = 0;
    while i < cs.len()
        invariant
            cs@ == key@,
            i <= cs.len(),
            forall|j: int|
                0 <= j < i ==> !forbidden_in_key(#[trigger] key@[j]) && (key@[j] == '.' ==> j == 0),
        decreases cs.len() - i,
    {
        let c = cs[i];
        if c <= '\u{1f}' || ('\u{7f}' <= c && c <= '\u{9f}') || c == '$' || c == '#' || c == '['
            || c == ']' || c == '/' {
            assert(forbidden_in_key(key@[i as int]));
            return Err(KeyError);
        }
        if c == '.' && i != 0 {
            assert(key@[i as int] == '.');
            return Err(KeyError);
        }
        i = i + 1;
    }
    Ok(())
}

/// Whether a key fits the byte limit. A character takes at least one byte, so a
/// key with more characters than that is never measured further.
fn within_key_bytes(key: &str) -> (r: bool)
    ensures
        r == (text::byte_len(key@) <= MAX_KEY_BYTES),
{
    bytes_in(key) <= MAX_KEY_BYTES
}

/// Number of bytes of the UTF-8 encoding of `s`.
pub fn bytes_in(s: &str) -> (r: usize)
    ensures
        r == text::byte_len(s@),
{
    s.as_bytes().len()
}

/// Checks a path text: the root, or a chain of valid keys no deeper than `max_depth`.
pub fn validate_path(path: &str, max_depth: usize) -> (r: Result<(), KeyError>)
    ensures
        r is Ok <==> valid_path(path@, max_depth as nat),
{
    let cs = chars_of(path);
    let from: usize = if cs.len() > 0 && cs[0] == '/' {
        1
    } else {
        0
    };
    let body = text_of(&cs, from, cs.len());
    assert(body@ =~= path_body(path@));
    if body.as_str().is_empty() {
        return Ok(());
    }
    let parts = split_text(body.as_str(), '/');
    let ghost ts = text::texts(parts@);
    assert(ts == text::split(path_body(path@), '/'));
    if parts.len() > max_depth {
        return Err(KeyError);
    }
    let mut i: usize = 0;
    while i < parts.len()
        invariant
            i <= parts.len() <= max_depth,
            ts == text::texts(parts@),
            ts == text::split(path_body(path@), '/'),
            path_body(path@).len() > 0,
            forall|j: int| 0 <= j < i ==> valid_key(#[trigger] ts[j]),
        decreases parts.len() - i,
    {
        if validate_key(parts[i].as_str()).is_err() {
            assert(!valid_key(ts[i as int]));
            return Err(KeyError);
        }
        i = i + 1;
    }
    Ok(())
}

/// The text of `key` under the path text `base`.
pub fn child_path_text(base: &str, key: &str) -> (r: String)
    ensures
        r@ == child_path(base@, key@),
{
    let trimmed = trim_end_of(base, '/');
    let r = concat3(trimmed.as_str(), "/", key);
    proof {
        reveal_strlit("/");
        assert("/"@ =~= seq!['/']);
    }
    r
}

/// Whether `child` lies below `parent`: the text `parent`, a slash, and more or nothing.
pub fn is_path_descendant(parent: &str, child: &str) -> (r: bool)
    ensures
        r == text::has_prefix(child@, parent@.push('/')),
{
    let mut prefix: String = parent.to_owned();
    prefix.push('/');
    starts_with(child, prefix.as_str())
}

/// The canonical key of a path text: leading slash present, root as `"/"`.
pub fn normalize_path_key(path: &str) -> (r: String)
    ensures
        r@ == path_key(path@),
{
    let trimmed = trim_start_of(path, '/');
    let r = concat("/", trimmed.as_str());
    proof {
        reveal_strlit("/");
        assert("/"@ =~= seq!['/']);
    }
    r
}

/// Whether a volatile pattern covers a path. A `*` stands for one segment, and
/// what lies below a covered path is covered too.
pub fn path_matches_pattern(path: &str, pattern: &str) -> (r: bool)
    ensures
        r == pattern_covers(segments(path@), segments(pattern@)),
{
    let p = Path::parse(path);
    let q = Path::parse(pattern);
    if p.segments.len() < q.segments.len() {
        return false;
    }
    let mut i: usize = 0;
    while i < q.segments.len()
        invariant
            p@ == segments(path@),
            q@ == segments(pattern@),
            i <= q.segments@.len() <= p.segments@.len(),
            forall|j: int|
                0 <= j < i ==> (#[trigger] q@[j] == seq!['*'] || q@[j] == p@[j]),
        decreases q.segments@.len() - i,
    {
        let star = same_text(q.segments[i].as_str(), "*");
        proof {
            reveal_strlit("*");
            assert("*"@ =~= seq!['*']);
        }
        assert(q@[i as int] == q.segments@[i as int]@);
        assert(p@[i as int] == p.segments@[i as int]@);
        if !star && !same_text(p.segments[i].as_str(), q.segments[i].as_str()) {
            return false;
        }
        i = i + 1;
    }
    true
}

/// The part of a combined `project/database` name after its first slash, or all of it.
pub open spec fn pure_database_name(id: Seq<char>) -> Seq<char>
    decreases id.len(),
{
    if id.contains('/') {
        id.skip(id.index_of_first('/')->0 + 1)
    } else {
        id
    }
}

/// The database portion of a combined `project/database` id.
pub fn extract_pure_database_id(id: &str) -> (r: String)
    ensures
        r@ == pure_database_name(id@),
{
    let cs = chars_of(id);
    let mut i: usize = 0;
    while i < cs.len()
        invariant
            cs@ == id@,
            i <= cs.len(),
            forall|j: int| 0 <= j < i ==> id@[j] != '/',
        decreases cs.len() - i,
    {
        if cs[i] == '/' {
            proof {
                id@.index_of_first_ensures('/');
                assert(id@[i as int] == '/');
                assert(id@.contains('/'));
                assert(id@.index_of_first('/')->0 == i);
                assert(id@.skip(i + 1) =~= id@.subrange(i + 1, id@.len() as int));
            }
            return text_of(&cs, i + 1, cs.len());
        }
        i = i + 1;
    }
    id.to_owned()
}

/// Putting a slash in front of a text adds one empty part to its split.
pub proof fn lemma_split_leading(s: Seq<char>)
    ensures
        text::split(seq!['/'] + s, '/') == seq![Seq::<char>::empty()] + text::split(s, '/'),
    decreases s.len(),
{
    let t = seq!['/'] + s;
    text::lemma_split_nonempty(s, '/');
    if s.len() == 0 {
        reveal_with_fuel(text::split, 2);
        assert(t.drop_last() =~= Seq::<char>::empty());
        assert(t.last() == '/');
        assert(text::split(t, '/') =~= seq![Seq::<char>::empty()] + text::split(s, '/'));
    } else {
        lemma_split_leading(s.drop_last());
        text::lemma_split_nonempty(s.drop_last(), '/');
        assert(t.drop_last() =~= seq!['/'] + s.drop_last());
        assert(t.last() == s.last());
        assert(text::split(t, '/') =~= seq![Seq::<char>::empty()] + text::split(s, '/'));
    }
}

/// An empty part in front is left out.
pub proof fn lemma_nonempty_leading(parts: Seq<Seq<char>>)
    ensures
        nonempty(seq![Seq::<char>::empty()] + parts) == nonempty(parts),
    decreases parts.len(),
{
    let t = seq![Seq::<char>::empty()] + parts;
    if parts.len() == 0 {
        reveal_with_fuel(nonempty, 2);
        assert(t.drop_last() =~= Seq::<Seq<char>>::empty());
        assert(t.last() =~= Seq::<char>::empty());
    } else {
        assert(t.drop_last() =~= seq![Seq::<char>::empty()] + parts.drop_last());
        assert(t.last() == parts.last());
        lemma_nonempty_leading(parts.drop_last());
    }
}

/// A leading slash does not change the segments of a path.
pub proof fn lemma_segments_leading(s: Seq<char>)
    ensures
        segments(seq!['/'] + s) == segments(s),
{
    lemma_split_leading(s);
    lemma_nonempty_leading(text::split(s, '/'));
}

/// Leading slashes do not change the segments of a path.
pub proof fn lemma_segments_trim(s: Seq<char>)
    ensures
        segments(text::trim_start(s, '/')) == segments(s),
    decreases s.len(),
{
    if s.len() > 0 && s[0] == '/' {
        assert(s =~= seq!['/'] + s.drop_first());
        lemma_segments_leading(s.drop_first());
        lemma_segments_trim(s.drop_first());
    }
}

/// A trimmed text has no leading slash left.
pub proof fn lemma_trim_start_trimmed(s: Seq<char>)
    ensures
        text::trim_start(s, '/').len() > 0 ==> text::trim_start(s, '/')[0] != '/',
        text::trim_start(text::trim_start(s, '/'), '/') == text::trim_start(s, '/'),
    decreases s.len(),
{
    if s.len() > 0 && s[0] == '/' {
        lemma_trim_start_trimmed(s.drop_first());
    }
}

/// Canonical keys are stable: the key of a key is the key itself, it begins with
/// exactly one slash, and it addresses the same segments as the text it came from.
pub proof fn law_path_key_canonical(s: Seq<char>)
    ensures
        path_key(path_key(s)) == path_key(s),
        path_key(s)[0] == '/',
        path_key(s).len() > 1 ==> path_key(s)[1] != '/',
        segments(path_key(s)) == segments(s),
{
    let t = text::trim_start(s, '/');
    lemma_trim_start_trimmed(s);
    lemma_segments_trim(s);
    lemma_segments_leading(t);
    let k = path_key(s);
    assert(k.drop_first() =~= t);
    assert(text::trim_start(k, '/') == text::trim_start(t, '/'));
}

/// Texts that differ in leading slashes only have one canonical key.
pub proof fn law_path_key_ignores_leading_slash(s: Seq<char>)
    ensures
        path_key(seq!['/'] + s) == path_key(s),
{
    assert((seq!['/'] + s).drop_first() =~= s);
}

/// Volatility cascades: a pattern that covers a path covers everything below it.
pub proof fn law_pattern_cascades(
    path: Seq<Seq<char>>,
    below: Seq<Seq<char>>,
    pattern: Seq<Seq<char>>,
)
    requires
        pattern_covers(path, pattern),
        is_prefix(path, below),
    ensures
        pattern_covers(below, pattern),
{
    assert forall|i: int| 0 <= i < pattern.len() implies (#[trigger] pattern[i] == seq!['*']
        || pattern[i] == below[i]) by {
        assert(below.take(path.len() as int)[i] == path[i]);
    }
}

/// Whether every segment of a chain can stand in a path text.
pub open spec fn writable(p: Seq<Seq<char>>) -> bool {
    forall|i: int| 0 <= i < p.len() ==> (#[trigger] p[i]).len() > 0 && !p[i].contains('/')
}

/// A text without slashes behind a slash adds itself to the split.
proof fn lemma_split_behind(a: Seq<char>, k: Seq<char>)
    requires
        !k.contains('/'),
    ensures
        text::split(a + seq!['/'] + k, '/') == text::split(a, '/').push(k),
    decreases k.len(),
{
    let t = a + seq!['/'] + k;
    text::lemma_split_nonempty(a, '/');
    if k.len() == 0 {
        assert(t.drop_last() =~= a);
        assert(k =~= Seq::<char>::empty());
    } else {
        let init = k.drop_last();
        assert forall|i: int| 0 <= i < init.len() implies init[i] != '/' by {
            assert(k.contains(k[i]));
        }
        lemma_split_behind(a, init);
        assert(t.drop_last() =~= a + seq!['/'] + init);
        assert(k.contains(k.last()));
        assert(t.last() == k.last());
        assert(init.push(k.last()) =~= k);
        assert(text::split(t, '/') =~= text::split(a, '/').push(k));
    }
}

/// A text without slashes is not split.
proof fn lemma_split_whole(k: Seq<char>)
    requires
        !k.contains('/'),
    ensures
        text::split(k, '/') == seq![k],
    decreases k.len(),
{
    if k.len() == 0 {
        assert(k =~= Seq::<char>::empty());
    } else {
        let init = k.drop_last();
        assert forall|i: int| 0 <= i < init.len() implies init[i] != '/' by {
            assert(k.contains(k[i]));
        }
        lemma_split_whole(init);
        assert(k.contains(k.last()));
        assert(init.push(k.last()) =~= k);
        assert(text::split(k, '/') =~= seq![k]);
    }
}

/// The text of a chain splits into the chain.
pub proof fn lemma_split_path_text(p: Seq<Seq<char>>)
    requires
        p.len() > 0,
        writable(p),
    ensures
        path_text(p).len() > 0,
        path_text(p)[0] == '/',
        text::split(path_body(path_text(p)), '/') == p,
    decreases p.len(),
{
    let t = path_text(p);
    if p.len() == 1 {
        assert(path_body(t) =~= p[0]);
        lemma_split_whole(p[0]);
        assert(p =~= seq![p[0]]);
    } else {
        let init = p.drop_last();
        assert(writable(init)) by {
            assert forall|i: int| 0 <= i < init.len() implies (#[trigger] init[i]).len() > 0
                && !init[i].contains('/') by {
                assert(init[i] == p[i]);
            }
        }
        lemma_split_path_text(init);
        let a = path_body(path_text(init));
        assert(path_body(t) =~= a + seq!['/'] + p.last());
        lemma_split_behind(a, p.last());
        assert(init.push(p.last()) =~= p);
    }
}

/// Nothing is left out of a chain of segments that are not empty.
proof fn lemma_nonempty_all(p: Seq<Seq<char>>)
    requires
        forall|i: int| 0 <= i < p.len() ==> (#[trigger] p[i]).len() > 0,
    ensures
        nonempty(p) == p,
    decreases p.len(),
{
    if p.len() > 0 {
        let init = p.drop_last();
        assert forall|i: int| 0 <= i < init.len() implies (#[trigger] init[i]).len() > 0 by {
            assert(init[i] == p[i]);
        }
        lemma_nonempty_all(init);
        assert(init.push(p.last()) =~= p);
    } else {
        assert(p =~= Seq::<Seq<char>>::empty());
    }
}

/// A chain of segments that can stand in a path text is read back from its text.
pub proof fn law_path_text_is_read_back(p: Seq<Seq<char>>)
    requires
        writable(p),
    ensures
        segments(path_text(p)) == p,
{
    let t = path_text(p);
    if p.len() == 0 {
        reveal_with_fuel(text::split, 2);
        reveal_with_fuel(nonempty, 3);
        assert(t.drop_last() =~= Seq::<char>::empty());
        assert(segments(t) =~= p);
    } else {
        lemma_split_path_text(p);
        let body = path_body(t);
        assert(t =~= seq!['/'] + body);
        lemma_segments_leading(body);
        lemma_nonempty_all(p);
    }
}

/// The segments of a valid path are valid keys, and no more of them than allowed.
pub proof fn lemma_valid_segments(s: Seq<char>, max_depth: nat)
    requires
        valid_path(s, max_depth),
    ensures
        segments(s).len() <= max_depth,
        forall|i: int| 0 <= i < segments(s).len() ==> valid_key(#[trigger] segments(s)[i]),
{
    let body = path_body(s);
    if s.len() > 0 && s[0] == '/' {
        assert(s =~= seq!['/'] + body);
        lemma_segments_leading(body);
    }
    let parts = text::split(body, '/');
    if body.len() == 0 {
        reveal_with_fuel(nonempty, 3);
        assert(segments(body) =~= Seq::<Seq<char>>::empty());
    } else {
        lemma_nonempty_all(parts);
    }
}

/// A chain of valid keys that is not too long has a valid path text.
pub proof fn lemma_valid_text(p: Seq<Seq<char>>, max_depth: nat)
    requires
        p.len() <= max_depth,
        forall|i: int| 0 <= i < p.len() ==> valid_key(#[trigger] p[i]),
    ensures
        writable(p),
        valid_path(path_text(p), max_depth),
{
    assert forall|i: int| 0 <= i < p.len() implies (#[trigger] p[i]).len() > 0
        && !p[i].contains('/') by {
        assert(valid_key(p[i]));
        if p[i].contains('/') {
            let j = choose|j: int| 0 <= j < p[i].len() && p[i][j] == '/';
            assert(forbidden_in_key(p[i][j]));
        }
    }
    if p.len() > 0 {
        lemma_split_path_text(p);
    } else {
        assert(path_body(path_text(p)) =~= Seq::<char>::empty());
    }
}

/// A slash between two texts separates them and does nothing else: the parts are those of the
/// one, then those of the other.
proof fn lemma_split_at_slash(a: Seq<char>, b: Seq<char>)
    ensures
        text::split(a + seq!['/'] + b, '/') == text::split(a, '/') + text::split(b, '/'),
    decreases b.len(),
{
    let t = a + seq!['/'] + b;
    text::lemma_split_nonempty(a, '/');
    text::lemma_split_nonempty(b, '/');
    if b.len() == 0 {
        assert(t.drop_last() =~= a);
        assert(t.last() == '/');
        assert(text::split(t, '/') =~= text::split(a, '/') + text::split(b, '/'));
    } else {
        let init = b.drop_last();
        text::lemma_split_nonempty(init, '/');
        lemma_split_at_slash(a, init);
        assert(t.drop_last() =~= a + seq!['/'] + init);
        assert(t.last() == b.last());
        assert(text::split(t, '/') =~= text::split(a, '/') + text::split(b, '/'));
    }
}

/// Leaving out empty parts works on each of two lists.
proof fn lemma_nonempty_joined(a: Seq<Seq<char>>, b: Seq<Seq<char>>)
    ensures
        nonempty(a + b) == nonempty(a) + nonempty(b),
    decreases b.len(),
{
    if b.len() == 0 {
        assert(a + b =~= a);
        assert(nonempty(a) + nonempty(b) =~= nonempty(a));
    } else {
        assert((a + b).drop_last() =~= a + b.drop_last());
        assert((a + b).last() == b.last());
        lemma_nonempty_joined(a, b.drop_last());
        assert(nonempty(a + b) =~= nonempty(a) + nonempty(b));
    }
}

/// A slash separates segments and does nothing else: a text behind a slash adds its own
/// segments. So slashes in front, behind or in a row add none.
pub proof fn law_slashes_only_separate(a: Seq<char>, b: Seq<char>)
    ensures
        segments(a + seq!['/'] + b) == segments(a) + segments(b),
        segments(Seq::empty()) == Seq::<Seq<char>>::empty(),
{
    lemma_split_at_slash(a, b);
    lemma_nonempty_joined(text::split(a, '/'), text::split(b, '/'));
    reveal_with_fuel(nonempty, 2);
    let none = text::split(Seq::<char>::empty(), '/');
    assert(none.drop_last() =~= Seq::<Seq<char>>::empty());
    assert(none.last().len() == 0);
}

/// A text without slashes is one segment, as it is.
pub proof fn law_text_without_slash_is_one_segment(k: Seq<char>)
    requires
        k.len() > 0,
        !k.contains('/'),
    ensures
        segments(k) == seq![k],
{
    lemma_split_whole(k);
    lemma_nonempty_all(seq![k]);
}

/// The parts of a split text have no separator in them.
proof fn lemma_parts_are_clean(s: Seq<char>)
    ensures
        forall|i: int|
            0 <= i < text::split(s, '/').len() ==> !(#[trigger] text::split(s, '/')[i]).contains(
                '/',
            ),
    decreases s.len(),
{
    text::lemma_split_nonempty(s, '/');
    if s.len() > 0 {
        let init = s.drop_last();
        lemma_parts_are_clean(init);
        text::lemma_split_nonempty(init, '/');
        let r = text::split(init, '/');
        let all = text::split(s, '/');
        assert forall|i: int| 0 <= i < all.len() implies !(#[trigger] all[i]).contains('/') by {
            if s.last() == '/' {
                if i < r.len() {
                    assert(all[i] == r[i]);
                }
            } else if i == r.len() - 1 {
                assert(all[i] == r[i].push(s.last()));
                assert(!r[i].contains('/'));
                if all[i].contains('/') {
                    let j = choose|j: int| 0 <= j < all[i].len() && all[i][j] == '/';
                    assert(j < r[i].len());
                    assert(r[i][j] == '/');
                }
            } else {
                assert(all[i] == r[i]);
            }
        }
    }
}

/// What is left of a list are parts of it that are not empty.
proof fn lemma_nonempty_parts(parts: Seq<Seq<char>>)
    ensures
        forall|i: int|
            0 <= i < nonempty(parts).len() ==> (#[trigger] nonempty(parts)[i]).len() > 0
                && parts.contains(nonempty(parts)[i]),
    decreases parts.len(),
{
    if parts.len() > 0 {
        let init = parts.drop_last();
        lemma_nonempty_parts(init);
        assert forall|i: int| 0 <= i < nonempty(parts).len() implies (
        #[trigger] nonempty(parts)[i]).len() > 0 && parts.contains(nonempty(parts)[i]) by {
            if i < nonempty(init).len() {
                assert(nonempty(parts)[i] == nonempty(init)[i]);
                let j = choose|j: int| 0 <= j < init.len() && init[j] == nonempty(init)[i];
                assert(parts[j] == nonempty(parts)[i]);
            } else {
                assert(parts[parts.len() - 1] == nonempty(parts)[i]);
            }
        }
    }
}

/// The segments of a text are not empty and have no slashes.
pub proof fn law_segments_can_be_written(s: Seq<char>)
    ensures
        writable(segments(s)),
{
    let parts = text::split(s, '/');
    lemma_parts_are_clean(s);
    lemma_nonempty_parts(parts);
    assert forall|i: int| 0 <= i < segments(s).len() implies (#[trigger] segments(s)[i]).len() > 0
        && !segments(s)[i].contains('/') by {
        let j = choose|j: int| 0 <= j < parts.len() && parts[j] == segments(s)[i];
        assert(!parts[j].contains('/'));
    }
}

/// Slashes at the end add no segments.
proof fn lemma_segments_trim_end(s: Seq<char>)
    ensures
        segments(text::trim_end(s, '/')) == segments(s),
    decreases s.len(),
{
    if s.len() > 0 && s.last() == '/' {
        let init = s.drop_last();
        assert(s =~= init + seq!['/'] + Seq::<char>::empty());
        law_slashes_only_separate(init, Seq::empty());
        assert(segments(init) + segments(Seq::<char>::empty()) =~= segments(init));
        lemma_segments_trim_end(init);
    }
}

/// The path of a key under a path leads over the path and then over the key.
pub proof fn law_child_path_leads_below(base: Seq<char>, key: Seq<char>)
    ensures
        segments(child_path(base, key)) == segments(base) + segments(key),
        key.len() > 0 && !key.contains('/') ==> segments(child_path(base, key)) == segments(
            base,
        ).push(key),
{
    law_slashes_only_separate(text::trim_end(base, '/'), key);
    lemma_segments_trim_end(base);
    if key.len() > 0 && !key.contains('/') {
        law_text_without_slash_is_one_segment(key);
        assert(segments(base) + seq![key] =~= segments(base).push(key));
    }
}

/// Which characters a key may hold: no control characters, none of the five marks, and a dot
/// only in front. A key is not empty and no longer than 768 bytes.
pub proof fn law_keys_hold_allowed_characters(k: Seq<char>)
    ensures
        valid_key(k) <==> k.len() > 0 && vstd::utf8::encode_utf8(k).len() <= 768 && (
        forall|i: int|
            0 <= i < k.len() ==> {
                let c = (#[trigger] k[i]) as int;
                &&& c > 31
                &&& c < 127 || c > 159
                &&& k[i] != '$' && k[i] != '#' && k[i] != '[' && k[i] != ']' && k[i] != '/'
                &&& i > 0 ==> k[i] != '.'
            }),
{
}

/// A path is valid exactly if it has no more segments than allowed and each is a valid key.
pub proof fn law_valid_paths(p: Seq<Seq<char>>, max_depth: nat)
    requires
        writable(p),
    ensures
        valid_path(path_text(p), max_depth) <==> p.len() <= max_depth && forall|i: int|
            0 <= i < p.len() ==> valid_key(#[trigger] p[i]),
{
    if p.len() > 0 {
        lemma_split_path_text(p);
        if path_body(path_text(p)).len() == 0 {
            lemma_split_whole(path_body(path_text(p)));
            assert(p[0].len() == 0);
        }
    } else {
        assert(path_body(path_text(p)).len() == 0);
    }
}

/// A pattern covers a path exactly if it is no longer and names each of its first segments,
/// where a star names any one.
pub proof fn law_pattern_names_each_segment(
    path: Seq<Seq<char>>,
    pattern: Seq<Seq<char>>,
    x: Seq<char>,
    y: Seq<char>,
)
    ensures
        pattern_covers(path, Seq::empty()),
        !pattern_covers(Seq::empty(), pattern.push(y)),
        pattern.len() == path.len() ==> (pattern_covers(path.push(x), pattern.push(y))
            <==> pattern_covers(path, pattern) && (y == seq!['*'] || y == x)),
{
    if pattern.len() == path.len() {
        let a = path.push(x);
        let b = pattern.push(y);
        if pattern_covers(a, b) {
            assert(b[pattern.len() as int] == y);
            assert(a[path.len() as int] == x);
            assert forall|i: int| 0 <= i < pattern.len() implies (#[trigger] pattern[i] == seq!['*']
                || pattern[i] == path[i]) by {
                assert(b[i] == pattern[i]);
                assert(a[i] == path[i]);
            }
        }
        if pattern_covers(path, pattern) && (y == seq!['*'] || y == x) {
            assert forall|i: int| 0 <= i < b.len() implies (#[trigger] b[i] == seq!['*'] || b[i]
                == a[i]) by {
                if i < pattern.len() {
                    assert(pattern[i] == b[i]);
                }
            }
        }
    }
}

/// The name of a database is what stands behind the first slash of its id, or all of it.
pub proof fn law_database_name_is_behind_the_project(project: Seq<char>, name: Seq<char>)
    requires
        !project.contains('/'),
    ensures
        pure_database_name(project + seq!['/'] + name) == name,
        pure_database_name(project) == project,
{
    let id = project + seq!['/'] + name;
    let n = project.len() as int;
    assert(id[n] == '/');
    assert(id.contains('/'));
    assert forall|i: int| 0 <= i < n implies id[i] != '/' by {
        assert(project.contains(project[i]));
    }
    let at = id.index_of_first('/');
    id.index_of_first_ensures('/');
    assert(at == Some(n));
    assert(id.skip(n + 1) =~= name);
}

/// A path leads to another exactly if something follows it in the other. Two paths have
/// nothing to do with each other exactly if they part somewhere.
pub proof fn law_paths_lead_on(p: Seq<Seq<char>>, q: Seq<Seq<char>>)
    ensures
        is_prefix(p, p + q),
        is_prefix(p, p),
        is_prefix(p, q) ==> q == p + q.skip(p.len() as int),
        !related(p, q) <==> exists|i: int|
            0 <= i < p.len() && i < q.len() && #[trigger] p[i] != q[i],
{
    assert((p + q).take(p.len() as int) =~= p);
    assert(p.take(p.len() as int) =~= p);
    if is_prefix(p, q) {
        assert(q =~= q.take(p.len() as int) + q.skip(p.len() as int));
    }
    if forall|i: int| 0 <= i < p.len() && i < q.len() ==> #[trigger] p[i] == q[i] {
        if p.len() <= q.len() {
            assert(q.take(p.len() as int) =~= p);
        } else {
            assert(p.take(q.len() as int) =~= q);
        }
    } else {
        let i = choose|i: int| 0 <= i < p.len() && i < q.len() && #[trigger] p[i] != q[i];
        if is_prefix(p, q) {
            assert(q.take(p.len() as int)[i] == q[i]);
        }
        if is_prefix(q, p) {
            assert(p.take(q.len() as int)[i] == p[i]);
        }
    }
}

} // verus!
