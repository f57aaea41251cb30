//! Text helpers with exact contracts over sequences of characters.
use vstd::prelude::*;
use vstd::string::*;

verus! {

broadcast use vstd::string::group_string_axioms;

/// `String::push` appends one character to the end of the string.
pub assume_specification[ std::string::String::push ](s: &mut String, c: char)
    ensures
        final(s)@ == old(s)@.push(c),
;

/// The characters of each text of a list.
pub open spec fn texts(v: Seq<String>) -> Seq<Seq<char>> {
    v.map_values(|s: String| s@)
}

/// The text an optional string holds, or the empty text.
pub open spec fn text_or_empty(s: Option<String>) -> Seq<char> {
    match s {
        Some(t) => t@,
        None => Seq::empty(),
    }
}

/// Number of bytes of the UTF-8 encoding of `s`.
pub open spec fn byte_len(s: Seq<char>) -> nat {
    vstd::utf8::encode_utf8(s).len()
}

/// `s` without its leading occurrences of `c`.
pub open spec fn trim_start(s: Seq<char>, c: char) -> Seq<char>
    decreases s.len(),
{
    if s.len() > 0 && s[0] == c {
        trim_start(s.drop_first(), c)
    } else {
        s
    }
}

/// `s` without its trailing occurrences of `c`.
pub open spec fn trim_end(s: Seq<char>, c: char) -> Seq<char>
    decreases s.len(),
{
    if s.len() > 0 && s.last() == c {
        trim_end(s.drop_last(), c)
    } else {
        s
    }
}

/// The parts of `s` between occurrences of `sep`; there is always at least one.
pub open spec fn split(s: Seq<char>, sep: char) -> Seq<Seq<char>>
    decreases s.len(),
{
    if s.len() == 0 {
        seq![Seq::<char>::empty()]
    } else {
        let r = split(s.drop_last(), sep);
        if s.last() == sep {
            r.push(Seq::<char>::empty())
        } else {
            r.update(r.len() - 1, r.last().push(s.last()))
        }
    }
}

/// Whether `t` occurs in `s`.
pub open spec fn contains(s: Seq<char>, t: Seq<char>) -> bool {
    exists|i: int| occurs_at(s, t, i)
}

/// Whether `t` stands in `s` at position `i`.
pub open spec fn occurs_at(s: Seq<char>, t: Seq<char>, i: int) -> bool {
    0 <= i && i + t.len() <= s.len() && s.subrange(i, i + t.len()) == t
}

/// Whether `s` begins with `p`.
pub open spec fn has_prefix(s: Seq<char>, p: Seq<char>) -> bool {
    p.len() <= s.len() && s.take(p.len() as int) == p
}

/// The decimal digit for `d < 10`.
pub open spec fn digit(d: nat) -> char {
    (d + 48) as char
}

/// `n` in decimal notation.
pub open spec fn decimal(n: nat) -> Seq<char>
    decreases n,
{
    if n < 10 {
        seq![digit(n)]
    } else {
        decimal(n / 10).push(digit(n % 10))
    }
}

/// The texts of `parts`, one after another, with `sep` between two of them.
pub open spec fn join(parts: Seq<Seq<char>>, sep: Seq<char>) -> Seq<char>
    decreases parts.len(),
{
    if parts.len() == 0 {
        Seq::empty()
    } else if parts.len() == 1 {
        parts[0]
    } else {
        join(parts.drop_last(), sep) + sep + parts.last()
    }
}

/// A split text has at least one part.
pub proof fn lemma_split_nonempty(s: Seq<char>, sep: char)
    ensures
        split(s, sep).len() > 0,
    decreases s.len(),
{
    if s.len() > 0 {
        lemma_split_nonempty(s.drop_last(), sep);
    }
}

/// The characters of `s`, in order.
pub fn chars_of(s: &str) -> (r: Vec<char>)
    ensures
        r@ == s@,
{
    let mut out: Vec<char> = Vec::new();
    for c in it: s.chars()
        invariant
            out@ == it.seq().take(it.index()),
            it.seq() == s@,
    {
        out.push(c);
    }
    out
}

/// The text made of the characters `cs[from..to]`.
pub fn text_of(cs: &Vec<char>, from: usize, to: usize) -> (r: String)
    requires
        from <= to <= cs@.len(),
    ensures
        r@ == cs@.subrange(from as int, to as int),
{
    let mut out = String::new();
    let mut i: usize = from;
    while i < to
        invariant
            from <= i <= to <= cs@.len(),
            out@ == cs@.subrange(from as int, i as int),
        decreases to - i,
    {
        out.push(cs[i]);
        i = i + 1;
    }
    out
}

/// Whether two texts hold the same characters.
pub fn same_text(a: &str, b: &str) -> (r: bool)
    ensures
        r == (a@ == b@),
{
    let x: String = a.to_owned();
    let y: String = b.to_owned();
    x == y
}

/// Whether the characters of `cs` from `at` on begin with `ps`.
pub fn chars_match_at(cs: &Vec<char>, at: usize, ps: &Vec<char>) -> (r: bool)
    requires
        at <= cs@.len(),
    ensures
        r == occurs_at(cs@, ps@, at as int),
{
    if ps.len() > cs.len() - at {
        return false;
    }
    let mut i: usize = 0;
    while i < ps.len()
        invariant
            at <= cs@.len(),
            i <= ps.len() <= cs.len() - at,
            forall|j: int| 0 <= j < i ==> cs@[at + j] == ps@[j],
        decreases ps.len() - i,
    {
        if cs[at + i] != ps[i] {
            assert(cs@.subrange(at as int, at + ps@.len())[i as int] != ps@[i as int]);
            return false;
        }
        i = i + 1;
    }
    assert(cs@.subrange(at as int, at + ps@.len()) =~= ps@);
    true
}

/// Whether `s` begins with `prefix`.
pub fn starts_with(s: &str, prefix: &str) -> (r: bool)
    ensures
        r == has_prefix(s@, prefix@),
{
    let cs = chars_of(s);
    let ps = chars_of(prefix);
    assert(prefix@.len() <= s@.len() ==> s@.subrange(0, prefix@.len() as int) =~= s@.take(
        prefix@.len() as int,
    ));
    chars_match_at(&cs, 0, &ps)
}

/// Whether `part` occurs in `s`.
pub fn contains_text(s: &str, part: &str) -> (r: bool)
    ensures
        r == contains(s@, part@),
{
    let cs = chars_of(s);
    let ps = chars_of(part);
    let mut i: usize = 0;
    while i < cs.len()
        invariant
            cs@ == s@,
            ps@ == part@,
            i <= cs.len(),
            forall|j: int| 0 <= j < i ==> !occurs_at(s@, part@, j),
        decreases cs.len() - i,
    {
        if chars_match_at(&cs, i, &ps) {
            assert(occurs_at(s@, part@, i as int));
            return true;
        }
        i = i + 1;
    }
    let last = chars_match_at(&cs, i, &ps);
    proof {
        if last {
            assert(occurs_at(s@, part@, i as int));
        } else {
            assert forall|j: int| !occurs_at(s@, part@, j) by {}
        }
    }
    last
}

/// The text `a` followed by the text `b`.
pub fn concat(a: &str, b: &str) -> (r: String)
    ensures
        r@ == a@ + b@,
{
    let mut out: String = a.to_owned();
    out.append(b);
    out
}

/// The text `a`, then `b`, then `c`.
pub fn concat3(a: &str, b: &str, c: &str) -> (r: String)
    ensures
        r@ == a@ + b@ + c@,
{
    let mut out: String = a.to_owned();
    out.append(b);
    out.append(c);
    out
}

/// The parts of `s` between occurrences of `sep`.
pub fn split_text(s: &str, sep: char) -> (r: Vec<String>)
    ensures
        texts(r@) == split(s@, sep),
{
    let cs = chars_of(s);
    let mut done: Vec<String> = Vec::new();
    let mut current = String::new();
    let mut i: usize = 0;
    assert(texts(done@).push(current@) =~= split(s@.take(0), sep));
    while i < cs.len()
        invariant
            cs@ == s@,
            i <= cs.len(),
            texts(done@).push(current@) == split(s@.take(i as int), sep),
        decreases cs.len() - i,
    {
        let ghost before = texts(done@).push(current@);
        let c = cs[i];
        assert(s@.take(i + 1).drop_last() =~= s@.take(i as int));
        if c == sep {
            done.push(current);
            assert(texts(done@) =~= before);
            current = String::new();
        } else {
            current.push(c);
            assert(texts(done@).push(current@) =~= before.update(
                before.len() - 1,
                before.last().push(c),
            ));
        }
        i = i + 1;
    }
    assert(s@.take(i as int) =~= s@);
    let ghost before = texts(done@).push(current@);
    done.push(current);
    assert(texts(done@) =~= before);
    done
}

/// `s` without its leading occurrences of `c`.
pub fn trim_start_of(s: &str, c: char) -> (r: String)
    ensures
        r@ == trim_start(s@, c),
{
    let cs = chars_of(s);
    let mut i: usize = 0;
    assert(s@.skip(0) =~= s@);
    while i < cs.len() && cs[i] == c
        invariant
            cs@ == s@,
            i <= cs.len(),
            trim_start(s@, c) == trim_start(s@.skip(i as int), c),
        decreases cs.len() - i,
    {
        assert(s@.skip(i as int).drop_first() =~= s@.skip(i + 1));
        i = i + 1;
    }
    assert(s@.skip(i as int) =~= s@.subrange(i as int, s@.len() as int));
    text_of(&cs, i, cs.len())
}

/// `s` without its trailing occurrences of `c`.
pub fn trim_end_of(s: &str, c: char) -> (r: String)
    ensures
        r@ == trim_end(s@, c),
{
    let cs = chars_of(s);
    let mut i: usize = cs.len();
    assert(s@.take(s@.len() as int) =~= s@);
    while i > 0 && cs[i - 1] == c
        invariant
            cs@ == s@,
            i <= cs.len(),
            trim_end(s@, c) == trim_end(s@.take(i as int), c),
        decreases i,
    {
        assert(s@.take(i as int).drop_last() =~= s@.take(i - 1));
        i = i - 1;
    }
    text_of(&cs, 0, i)
}

/// `n` in decimal notation.
pub fn decimal_text(n: u64) -> (r: String)
    ensures
        r@ == decimal(n as nat),
    decreases n,
{
    if n < 10 {
        let mut out = String::new();
        out.push(digit_char(n as u8));
        out
    } else {
        let mut out = decimal_text(n / 10);
        out.push(digit_char((n % 10) as u8));
        out
    }
}

/// The decimal digit for `d < 10`.
fn digit_char(d: u8) -> (r: char)
    requires
        d < 10,
    ensures
        r == digit(d as nat),
{
    (d + 48) as char
}

/// The texts of `parts` with `sep` between two of them.
pub fn join_texts(parts: &Vec<String>, sep: &str) -> (r: String)
    ensures
        r@ == join(texts(parts@), sep@),
{
    let mut out = String::new();
    let mut i: usize = 0;
    while i < parts.len()
        invariant
            i <= parts.len(),
            out@ == join(texts(parts@).take(i as int), sep@),
        decreases parts.len() - i,
    {
        let ghost ts = texts(parts@);
        assert(ts.take(i + 1).drop_last() =~= ts.take(i as int));
        assert(ts.take(i + 1).last() == parts@[i as int]@);
        if i > 0 {
            out.append(sep);
        }
        out.append(parts[i].as_str());
        assert(out@ =~= join(ts.take(i + 1), sep@));
        i = i + 1;
    }
    assert(texts(parts@).take(i as int) =~= texts(parts@));
    out
}

/// A copy of a list of texts.
pub fn clone_texts(v: &Vec<String>) -> (r: Vec<String>)
    ensures
        r@ == v@,
{
    let mut out: Vec<String> = Vec::new();
    let mut i: usize = 0;
    while i < v.len()
        invariant
            i <= v.len(),
            out@ == v@.take(i as int),
        decreases v.len() - i,
    {
        out.push(v[i].clone());
        i = i + 1;
    }
    out
}

/// Puts a text at the end of a list, unless it is on it already.
pub fn list_once(list: &mut Vec<String>, t: String)
    ensures
        texts(old(list)@).no_duplicates() ==> texts(final(list)@).no_duplicates(),
        forall|x: Seq<char>| #[trigger]
            texts(final(list)@).contains(x) <==> texts(old(list)@).contains(x) || x == t@,
        texts(old(list)@).is_prefix_of(texts(final(list)@)),
{
    let ghost before = texts(list@);
    let mut i: usize = 0;
    while i < list.len()
        invariant
            i <= list@.len(),
            before == texts(list@),
            *list == *old(list),
            forall|j: int| 0 <= j < i ==> before[j] != t@,
        decreases list@.len() - i,
    {
        if same_text(list[i].as_str(), t.as_str()) {
            assert(before[i as int] == t@);
            assert(before =~= before.take(before.len() as int));
            return;
        }
        i = i + 1;
    }
    list.push(t);
    proof {
        let after = texts(list@);
        assert(after =~= before.push(t@));
        assert(before =~= after.take(before.len() as int));
        assert forall|x: Seq<char>| #[trigger] after.contains(x) <==> before.contains(x) || x
            == t@ by {
            if before.contains(x) {
                let j = choose|j: int| 0 <= j < before.len() && before[j] == x;
                assert(after[j] == x);
            }
            if x == t@ {
                assert(after[before.len() as int] == x);
            }
            if after.contains(x) {
                let j = choose|j: int| 0 <= j < after.len() && after[j] == x;
                if j < before.len() {
                    assert(before[j] == x);
                }
            }
        }
    }
}

/// A text that is taken apart at a character can be put together again: the parts hold that
/// character nowhere, and joined by it they are the text.
pub proof fn law_split_is_undone_by_joining(s: Seq<char>, sep: char)
    ensures
        join(split(s, sep), seq![sep]) == s,
        forall|i: int|
            0 <= i < split(s, sep).len() ==> !(#[trigger] split(s, sep)[i]).contains(sep),
    decreases s.len(),
{
    lemma_split_nonempty(s, sep);
    if s.len() > 0 {
        let d = s.drop_last();
        let before = split(d, sep);
        let after = split(s, sep);
        lemma_split_nonempty(d, sep);
        law_split_is_undone_by_joining(d, sep);
        assert(s =~= d.push(s.last()));
        if s.last() == sep {
            assert(after.drop_last() =~= before);
            assert(after.len() > 1);
            assert(join(after, seq![sep]) =~= d + seq![sep] + Seq::<char>::empty());
            assert(join(after, seq![sep]) =~= s);
            assert forall|i: int| 0 <= i < after.len() implies !(#[trigger] after[i]).contains(
                sep,
            ) by {
                if i < before.len() {
                    assert(after[i] == before[i]);
                }
            }
        } else {
            let last = before.last().push(s.last());
            assert(after.last() == last);
            assert(after.drop_last() =~= before.drop_last());
            if before.len() == 1 {
                assert(join(after, seq![sep]) =~= before[0].push(s.last()));
            } else {
                assert(join(after, seq![sep]) =~= join(before.drop_last(), seq![sep]) + seq![sep]
                    + last);
                assert(join(after, seq![sep]) =~= join(before, seq![sep]).push(s.last()));
            }
            assert forall|i: int| 0 <= i < after.len() implies !(#[trigger] after[i]).contains(
                sep,
            ) by {
                if i < before.len() - 1 {
                    assert(after[i] == before[i]);
                } else {
                    assert(after[i] == last);
                    assert(!before[before.len() - 1].contains(sep));
                    assert forall|j: int| 0 <= j < last.len() implies last[j] != sep by {
                        if j < last.len() - 1 {
                            assert(before.last()[j] == last[j]);
                            assert(before.last().contains(last[j]));
                        }
                    }
                }
            }
        }
    } else {
        assert(split(s, sep)[0].len() == 0);
        assert(s =~= Seq::<char>::empty());
    }
}

/// Of the front of a text all of a character goes that stands there in a row, and nothing
/// else.
pub proof fn law_trimming_the_front(s: Seq<char>, c: char)
    ensures
        trim_start(s, c).len() <= s.len(),
        trim_start(s, c) == s.skip(s.len() - trim_start(s, c).len()),
        forall|i: int| 0 <= i < s.len() - trim_start(s, c).len() ==> #[trigger] s[i] == c,
        trim_start(s, c).len() > 0 ==> trim_start(s, c)[0] != c,
    decreases s.len(),
{
    if s.len() > 0 && s[0] == c {
        let d = s.drop_first();
        law_trimming_the_front(d, c);
        let n = d.len() - trim_start(d, c).len();
        assert(d.skip(n) =~= s.skip(n + 1));
        assert forall|i: int| 0 <= i < s.len() - trim_start(s, c).len() implies #[trigger] s[i]
            == c by {
            if i > 0 {
                assert(d[i - 1] == s[i]);
            }
        }
    } else {
        assert(s.skip(0) =~= s);
    }
}

/// Of the end of a text all of a character goes that stands there in a row, and nothing
/// else.
pub proof fn law_trimming_the_end(s: Seq<char>, c: char)
    ensures
        trim_end(s, c).len() <= s.len(),
        trim_end(s, c) == s.take(trim_end(s, c).len() as int),
        forall|i: int| trim_end(s, c).len() <= i < s.len() ==> #[trigger] s[i] == c,
        trim_end(s, c).len() > 0 ==> trim_end(s, c).last() != c,
    decreases s.len(),
{
    if s.len() > 0 && s.last() == c {
        let d = s.drop_last();
        law_trimming_the_end(d, c);
        assert(d.take(trim_end(d, c).len() as int) =~= s.take(trim_end(d, c).len() as int));
        assert forall|i: int| trim_end(s, c).len() <= i < s.len() implies #[trigger] s[i]
            == c by {
            if i < d.len() {
                assert(d[i] == s[i]);
            }
        }
    } else {
        assert(s.take(s.len() as int) =~= s);
    }
}

/// A text begins with another exactly if something completes the other one to it, and holds
/// it exactly if it stands between two texts.
pub proof fn law_parts_of_texts(a: Seq<char>, b: Seq<char>, c: Seq<char>)
    ensures
        has_prefix(a + b, a),
        contains(a + b + c, b),
        forall|s: Seq<char>| #[trigger]
            has_prefix(s, a) ==> s == a + s.skip(a.len() as int),
        forall|s: Seq<char>, i: int| #[trigger]
            occurs_at(s, b, i) ==> s == s.take(i) + b + s.skip(i + b.len()),
{
    assert((a + b).take(a.len() as int) =~= a);
    assert((a + b + c).subrange(a.len() as int, a.len() as int + b.len()) =~= b);
    assert(occurs_at(a + b + c, b, a.len() as int));
    assert forall|s: Seq<char>| #[trigger] has_prefix(s, a) implies s == a + s.skip(
        a.len() as int,
    ) by {
        assert(s =~= s.take(a.len() as int) + s.skip(a.len() as int));
    }
    assert forall|s: Seq<char>, i: int| #[trigger] occurs_at(s, b, i) implies s == s.take(i) + b
        + s.skip(i + b.len()) by {
        assert(s =~= s.take(i) + s.subrange(i, i + b.len()) + s.skip(i + b.len()));
    }
}

/// A number is written with decimal digits and without needless zeros in front.
pub proof fn law_numbers_are_written_plainly(n: nat)
    ensures
        decimal(n).len() > 0,
        forall|i: int| 0 <= i < decimal(n).len() ==> '0' <= #[trigger] decimal(n)[i] <= '9',
        decimal(n)[0] == '0' ==> n == 0,
        n == 0 ==> decimal(n) == seq!['0'],
    decreases n,
{
    if n >= 10 {
        law_numbers_are_written_plainly(n / 10);
        assert(decimal(n)[0] == decimal(n / 10)[0]);
    } else {
        assert(decimal(n) =~= seq![digit(n)]);
    }
}

/// Joined texts hold every one of their parts.
pub proof fn law_joined_texts_hold_their_parts(parts: Seq<Seq<char>>, sep: Seq<char>, i: int)
    requires
        0 <= i < parts.len(),
    ensures
        contains(join(parts, sep), parts[i]),
    decreases parts.len(),
{
    let whole = join(parts, sep);
    if parts.len() == 1 {
        assert(whole.subrange(0, whole.len() as int) =~= whole);
        assert(occurs_at(whole, parts[i], 0));
    } else {
        let front = join(parts.drop_last(), sep);
        if i == parts.len() - 1 {
            let at = front.len() + sep.len();
            assert(whole.subrange(at as int, at + parts[i].len() as int) =~= parts[i]);
            assert(occurs_at(whole, parts[i], at as int));
        } else {
            law_joined_texts_hold_their_parts(parts.drop_last(), sep, i);
            let at = choose|at: int| occurs_at(front, parts[i], at);
            assert(whole.subrange(at, at + parts[i].len()) =~= front.subrange(
                at,
                at + parts[i].len(),
            ));
            assert(occurs_at(whole, parts[i], at));
        }
    }
}

} // verus!
