//! Where a database keeps its files, and the numbers that stand in them.
use crate::text;
use crate::text::{chars_of, concat, concat3, text_of};
use vstd::prelude::*;

verus! {

/// Whether a character is white space by the Unicode property of that name.
pub open spec fn is_white(c: char) -> bool {
    let n = c as int;
    ||| 0x9 <= n <= 0xd
    ||| n == 0x20
    ||| n == 0x85
    ||| n == 0xa0
    ||| n == 0x1680
    ||| 0x2000 <= n <= 0x200a
    ||| 0x2028 <= n <= 0x2029
    ||| n == 0x202f
    ||| n == 0x205f
    ||| n == 0x3000
}

/// A text without the white space at its ends.
pub open spec fn trimmed(s: Seq<char>) -> Seq<char>
    decreases s.len(),
{
    if s.len() > 0 && is_white(s[0]) {
        trimmed(s.drop_first())
    } else if s.len() > 0 && is_white(s.last()) {
        trimmed(s.drop_last())
    } else {
        s
    }
}

/// A text without a newline at its end.
pub open spec fn bare(s: Seq<char>) -> Seq<char> {
    if s.len() > 0 && s.last() == '\n' {
        s.drop_last()
    } else {
        s
    }
}

/// Whether a character is a decimal digit.
pub open spec fn is_digit(c: char) -> bool {
    '0' <= c <= '9'
}

/// Whether a text begins with a digit or a sign and ends with a digit.
pub open spec fn is_figure(s: Seq<char>) -> bool {
    &&& s.len() > 0
    &&& is_digit(s[0]) || s[0] == '+' || s[0] == '-'
    &&& is_digit(s.last())
}

/// `str::trim`: the text without leading and trailing white space, which is that of the
/// Unicode property.
#[verifier::external_body]
fn trim_text(s: &str) -> (r: String)
    ensures
        r@ == trimmed(s@),
{
    s.trim().to_owned()
}

/// A number with or without a newline behind it is all that trimming leaves.
proof fn lemma_figure_trimmed(s: Seq<char>)
    requires
        is_figure(bare(s)),
    ensures
        trimmed(s) == bare(s),
{
    reveal_with_fuel(trimmed, 2);
    if s.last() == '\n' {
        assert(s[0] == bare(s)[0]);
    }
}

/// The number that digits stand for; nothing where there are none, or something else.
pub open spec fn digits_value(s: Seq<char>) -> Option<nat>
    decreases s.len(),
{
    if s.len() == 0 || !is_digit(s.last()) {
        None
    } else if s.len() == 1 {
        Some(((s.last() as u32) - ('0' as u32)) as nat)
    } else {
        match digits_value(s.drop_last()) {
            Some(n) => Some(n * 10 + ((s.last() as u32) - ('0' as u32)) as nat),
            None => None,
        }
    }
}

/// The number that a text with an optional plus sign stands for, up to a limit.
pub open spec fn unsigned_value(s: Seq<char>, max: nat) -> Option<nat> {
    let body = if s.len() > 0 && s[0] == '+' {
        s.skip(1)
    } else {
        s
    };
    match digits_value(body) {
        Some(n) if n <= max => Some(n),
        _ => None,
    }
}

/// The number that a text with an optional sign stands for, if it fits.
pub open spec fn signed_value(s: Seq<char>) -> Option<int> {
    if s.len() > 0 && s[0] == '-' {
        match digits_value(s.skip(1)) {
            Some(n) if n <= -(i64::MIN as int) => Some(-(n as int)),
            _ => None,
        }
    } else {
        match unsigned_value(s, i64::MAX as nat) {
            Some(n) => Some(n as int),
            None => None,
        }
    }
}

/// More digits never make a number smaller.
proof fn lemma_digits_grow(s: Seq<char>, n: int)
    requires
        0 < n <= s.len(),
        digits_value(s) is Some,
    ensures
        digits_value(s.take(n)) is Some,
        digits_value(s.take(n))->0 <= digits_value(s)->0,
    decreases s.len(),
{
    if n < s.len() {
        let d = s.drop_last();
        assert(d.take(n) =~= s.take(n));
        lemma_digits_grow(d, n);
    } else {
        assert(s.take(n) =~= s);
    }
}

/// A text that stands for digits begins and ends with one.
proof fn lemma_digits_ends(s: Seq<char>)
    requires
        digits_value(s) is Some,
    ensures
        s.len() > 0,
        is_digit(s[0]),
        is_digit(s.last()),
{
    lemma_digits_grow(s, 1);
    assert(s.take(1).last() == s[0]);
}

/// A text that stands for a number begins with a digit or a sign and ends with a digit.
proof fn lemma_number_is_figure(s: Seq<char>)
    requires
        unsigned_value(s, u64::MAX as nat) is Some || signed_value(s) is Some,
    ensures
        is_figure(s),
{
    if s[0] == '+' || s[0] == '-' {
        if s.len() > 0 && digits_value(s.skip(1)) is Some {
            lemma_digits_ends(s.skip(1));
        } else {
            lemma_digits_ends(s);
        }
    } else {
        lemma_digits_ends(s);
    }
}

/// The number that the characters from `from` on stand for, up to a limit.
fn digits_from(cs: &Vec<char>, from: usize, max: u64) -> (r: Option<u64>)
    requires
        from <= cs@.len(),
    ensures
        match digits_value(cs@.skip(from as int)) {
            Some(n) if n <= max => r is Some && r->0 == n,
            _ => r is None,
        },
{
    let ghost s = cs@.skip(from as int);
    if from == cs.len() {
        return None;
    }
    let mut total: u64 = 0;
    let mut i: usize = from;
    while i < cs.len()
        invariant
            from <= i <= cs@.len(),
            from < cs@.len(),
            s == cs@.skip(from as int),
            total <= max,
            i == from ==> total == 0,
            i > from ==> digits_value(s.take(i - from)) == Some(total as nat),
        decreases cs@.len() - i,
    {
        let c = cs[i];
        let ghost n = i - from;
        assert(s[n] == c);
        assert(s.take(n + 1).drop_last() =~= s.take(n));
        assert(s.take(n + 1).last() == c);
        if !('0' <= c && c <= '9') {
            proof {
                if digits_value(s) is Some {
                    lemma_digits_grow(s, n + 1);
                }
            }
            return None;
        }
        let d: u64 = (c as u32 - '0' as u32) as u64;
        let wide: u128 = total as u128 * 10 + d as u128;
        assert(digits_value(s.take(n + 1)) == Some(wide as nat)) by {
            if n == 0 {
                assert(s.take(1).len() == 1);
            }
        }
        if wide > max as u128 {
            proof {
                if digits_value(s) is Some {
                    lemma_digits_grow(s, n + 1);
                }
            }
            return None;
        }
        total = wide as u64;
        i = i + 1;
    }
    assert(s.take(i - from) =~= s);
    Some(total)
}

/// Reads an unsigned number.
pub fn parse_unsigned(s: &str) -> (r: Option<u64>)
    ensures
        match unsigned_value(s@, u64::MAX as nat) {
            Some(n) => r is Some && r->0 == n,
            None => r is None,
        },
{
    let cs = chars_of(s);
    let from: usize = if cs.len() > 0 && cs[0] == '+' {
        1
    } else {
        0
    };
    assert(cs@.skip(0) =~= cs@);
    digits_from(&cs, from, u64::MAX)
}

/// Reads a signed number.
pub fn parse_signed(s: &str) -> (r: Option<i64>)
    ensures
        match signed_value(s@) {
            Some(n) => r is Some && r->0 == n,
            None => r is None,
        },
{
    let cs = chars_of(s);
    if cs.len() > 0 && cs[0] == '-' {
        return match digits_from(&cs, 1, 9_223_372_036_854_775_808) {
            Some(n) => {
                let wide: i128 = -(n as i128);
                Some(wide as i64)
            },
            None => None,
        };
    }
    let from: usize = if cs.len() > 0 && cs[0] == '+' {
        1
    } else {
        0
    };
    assert(cs@.skip(0) =~= cs@);
    match digits_from(&cs, from, 9_223_372_036_854_775_807) {
        Some(n) => Some(n as i64),
        None => None,
    }
}

/// The generation of a blob as its file tells it; zero where there is no file, or
/// something else in it.
pub open spec fn generation_of(content: Option<Seq<char>>) -> u64 {
    match content {
        Some(s) => match unsigned_value(trimmed(s), u64::MAX as nat) {
            Some(n) => n as u64,
            None => 0,
        },
        None => 0,
    }
}

/// The sequence number through which a blob is up to date, as its file tells it; zero
/// where there is no file, or something else in it.
pub open spec fn sequence_of(content: Option<Seq<char>>) -> i64 {
    match content {
        Some(s) => match signed_value(trimmed(s)) {
            Some(n) => n as i64,
            None => 0,
        },
        None => 0,
    }
}

/// The number that a trimmed generation file stands for.
pub fn generation_number(s: &str) -> (r: u64)
    ensures
        r == match unsigned_value(s@, u64::MAX as nat) {
            Some(n) => n as u64,
            None => 0,
        },
{
    match parse_unsigned(s) {
        Some(n) => n,
        None => 0,
    }
}

/// Reads the content of a generation file: a number, with or without a newline behind it.
pub fn parse_blob_generation(content: Option<&str>) -> (r: u64)
    ensures
        r == generation_of(
            match content {
                Some(s) => Some(s@),
                None => None,
            },
        ),
        content matches Some(s) && unsigned_value(bare(s@), u64::MAX as nat) is Some ==> r
            == unsigned_value(bare(content->0@), u64::MAX as nat)->0,
{
    match content {
        Some(s) => {
            proof {
                if unsigned_value(bare(s@), u64::MAX as nat) is Some {
                    lemma_number_is_figure(bare(s@));
                    lemma_figure_trimmed(s@);
                }
            }
            generation_number(trim_text(s).as_str())
        },
        None => 0,
    }
}

/// The number that a trimmed sequence file stands for.
pub fn sequence_number(s: &str) -> (r: i64)
    ensures
        r == match signed_value(s@) {
            Some(n) => n as i64,
            None => 0,
        },
{
    match parse_signed(s) {
        Some(n) => n,
        None => 0,
    }
}

/// Reads the content of a sequence file: a number, with or without a newline behind it.
pub fn parse_sequence(content: Option<&str>) -> (r: i64)
    ensures
        r == sequence_of(
            match content {
                Some(s) => Some(s@),
                None => None,
            },
        ),
        content matches Some(s) && signed_value(bare(s@)) is Some ==> r == signed_value(
            bare(content->0@),
        )->0,
{
    match content {
        Some(s) => {
            proof {
                if signed_value(bare(s@)) is Some {
                    lemma_number_is_figure(bare(s@));
                    lemma_figure_trimmed(s@);
                }
            }
            sequence_number(trim_text(s).as_str())
        },
        None => 0,
    }
}

/// The path of a file in a directory.
pub open spec fn file_in(dir: Seq<char>, name: Seq<char>) -> Seq<char> {
    if dir.len() == 0 {
        name
    } else if dir.last() == '/' {
        dir + name
    } else {
        dir + "/"@ + name
    }
}

/// The path of a file in a directory.
pub fn file_path(dir: &str, name: &str) -> (r: String)
    ensures
        r@ == file_in(dir@, name@),
{
    let cs = chars_of(dir);
    if cs.len() == 0 {
        return name.to_owned();
    }
    if cs[cs.len() - 1] == '/' {
        return concat(dir, name);
    }
    concat3(dir, "/", name)
}

/// The blob of a database.
pub fn blob_path(data_dir: &str) -> (r: String)
    ensures
        r@ == file_in(data_dir@, "blob.lark"@),
{
    file_path(data_dir, "blob.lark")
}

/// The sidecar of a database.
pub fn sidecar_path(data_dir: &str) -> (r: String)
    ensures
        r@ == file_in(data_dir@, "sidecar.lark"@),
{
    file_path(data_dir, "sidecar.lark")
}

/// A text with every slash turned into a hash sign.
pub open spec fn slashes_to_hashes(s: Seq<char>) -> Seq<char> {
    s.map_values(
        |c: char|
            if c == '/' {
                '#'
            } else {
                c
            },
    )
}

/// The name of the file that marks a database for compaction.
pub fn marker_name(id: &str) -> (r: String)
    ensures
        r@ == slashes_to_hashes(id@),
{
    let cs = chars_of(id);
    let mut out: Vec<char> = Vec::new();
    let mut i: usize = 0;
    while i < cs.len()
        invariant
            i <= cs@.len(),
            out@.len() == i,
            cs@ == id@,
            forall|j: int| 0 <= j < i ==> out@[j] == #[trigger] slashes_to_hashes(cs@)[j],
        decreases cs@.len() - i,
    {
        let c = cs[i];
        if c == '/' {
            out.push('#');
        } else {
            out.push(c);
        }
        assert(slashes_to_hashes(cs@)[i as int] == out@[i as int]);
        i = i + 1;
    }
    let n = out.len();
    let r = text_of(&out, 0, n);
    assert(out@.subrange(0, n as int) =~= slashes_to_hashes(id@));
    r
}

/// What is written as a decimal number is read as that number.
pub proof fn law_numbers_are_read_back(n: nat)
    ensures
        digits_value(text::decimal(n)) == Some(n),
    decreases n,
{
    text::law_numbers_are_written_plainly(n);
    if n >= 10 {
        law_numbers_are_read_back(n / 10);
        assert(text::decimal(n).drop_last() =~= text::decimal(n / 10));
        assert(text::decimal(n).len() > 1);
    }
}

/// Digits without a zero in front are what their number is written as.
pub proof fn law_digits_are_how_numbers_are_written(s: Seq<char>)
    requires
        s.len() > 0,
        forall|i: int| 0 <= i < s.len() ==> '0' <= #[trigger] s[i] <= '9',
        s[0] != '0' || s.len() == 1,
    ensures
        digits_value(s) is Some,
        text::decimal(digits_value(s)->0) == s,
        s.len() > 1 ==> digits_value(s)->0 >= 10,
    decreases s.len(),
{
    if s.len() == 1 {
        assert(text::decimal(digits_value(s)->0) =~= s);
    } else {
        let d = s.drop_last();
        assert forall|i: int| 0 <= i < d.len() implies '0' <= #[trigger] d[i] <= '9' by {
            assert(d[i] == s[i]);
        }
        law_digits_are_how_numbers_are_written(d);
        let m = digits_value(d)->0;
        let n = digits_value(s)->0;
        assert(m >= 1) by {
            if d.len() == 1 {
                assert(d[0] == s[0]);
            }
        }
        assert(n / 10 == m && n % 10 == s.last() as nat - 48);
        assert(text::decimal(n) =~= text::decimal(m).push(s.last()));
        assert(s =~= d.push(s.last()));
    }
}

/// A text with anything but digits in it stands for no number.
pub proof fn law_other_texts_are_no_digits(s: Seq<char>, i: int)
    requires
        0 <= i < s.len(),
        !('0' <= s[i] <= '9'),
    ensures
        digits_value(s) is None,
    decreases s.len(),
{
    if i < s.len() - 1 {
        assert(s.drop_last()[i] == s[i]);
        law_other_texts_are_no_digits(s.drop_last(), i);
    }
}

/// Numbers may have a sign. Those beyond what a machine number holds are not taken.
pub proof fn law_signs_and_limits(n: nat, max: nat)
    ensures
        unsigned_value(text::decimal(n), max) == if n <= max {
            Some(n)
        } else {
            None
        },
        unsigned_value(seq!['+'] + text::decimal(n), max) == if n <= max {
            Some(n)
        } else {
            None
        },
        unsigned_value(seq!['-'] + text::decimal(n), max) is None,
        signed_value(text::decimal(n)) == if n <= i64::MAX {
            Some(n as int)
        } else {
            None
        },
        signed_value(seq!['+'] + text::decimal(n)) == if n <= i64::MAX {
            Some(n as int)
        } else {
            None
        },
        signed_value(seq!['-'] + text::decimal(n)) == if -n >= i64::MIN {
            Some(-(n as int))
        } else {
            None
        },
{
    let d = text::decimal(n);
    let plus = seq!['+'] + d;
    let minus = seq!['-'] + d;
    text::law_numbers_are_written_plainly(n);
    law_numbers_are_read_back(n);
    assert('0' <= d[0] <= '9');
    assert(plus[0] == '+' && minus[0] == '-');
    assert(plus.skip(1) =~= d);
    assert(minus.skip(1) =~= d);
    law_other_texts_are_no_digits(minus, 0);
}

/// Whether there is nothing but white space in a text before one place and from another on.
pub open spec fn white_outside(s: Seq<char>, a: int, b: int) -> bool {
    &&& 0 <= a <= b <= s.len()
    &&& forall|i: int| 0 <= i < a ==> is_white(#[trigger] s[i])
    &&& forall|i: int| b <= i < s.len() ==> is_white(#[trigger] s[i])
}

/// White space around a text goes, and only that.
pub proof fn law_white_space_around_goes(s: Seq<char>)
    ensures
        exists|a: int, b: int| #[trigger]
            white_outside(s, a, b) && trimmed(s) == s.subrange(a, b),
        trimmed(s).len() > 0 ==> !is_white(trimmed(s)[0]) && !is_white(trimmed(s).last()),
    decreases s.len(),
{
    if s.len() > 0 && is_white(s[0]) {
        let d = s.drop_first();
        law_white_space_around_goes(d);
        let (a, b) = choose|a: int, b: int| #[trigger]
            white_outside(d, a, b) && trimmed(d) == d.subrange(a, b);
        assert(s.subrange(a + 1, b + 1) =~= d.subrange(a, b));
        assert(white_outside(s, a + 1, b + 1)) by {
            assert forall|i: int| 0 <= i < a + 1 implies is_white(#[trigger] s[i]) by {
                if i > 0 {
                    assert(d[i - 1] == s[i]);
                }
            }
            assert forall|i: int| b + 1 <= i < s.len() implies is_white(#[trigger] s[i]) by {
                assert(d[i - 1] == s[i]);
            }
        }
    } else if s.len() > 0 && is_white(s.last()) {
        let d = s.drop_last();
        law_white_space_around_goes(d);
        let (a, b) = choose|a: int, b: int| #[trigger]
            white_outside(d, a, b) && trimmed(d) == d.subrange(a, b);
        assert(s.subrange(a, b) =~= d.subrange(a, b));
        assert(white_outside(s, a, b)) by {
            assert forall|i: int| 0 <= i < a implies is_white(#[trigger] s[i]) by {
                assert(d[i] == s[i]);
            }
            assert forall|i: int| b <= i < s.len() implies is_white(#[trigger] s[i]) by {
                if i < d.len() {
                    assert(d[i] == s[i]);
                }
            }
        }
    } else {
        assert(s.subrange(0, s.len() as int) =~= s);
        assert(white_outside(s, 0, s.len() as int));
    }
}

/// Blanks, tabs and ends of lines are white space. What can be seen of the ASCII characters
/// is not.
pub proof fn law_white_space(c: char)
    ensures
        c == ' ' || c == '\n' || c == '\r' || c == '\t' ==> is_white(c),
        '!' <= c <= '~' ==> !is_white(c),
{
}

/// The numbers that stand in a database's files are read as they were written, also with an
/// end of line behind them. A file that is missing counts as zero.
pub proof fn law_numbers_in_files(n: nat)
    ensures
        n <= u64::MAX ==> generation_of(Some(text::decimal(n))) == n,
        n <= u64::MAX ==> generation_of(Some(text::decimal(n).push('\n'))) == n,
        n > u64::MAX ==> generation_of(Some(text::decimal(n))) == 0,
        generation_of(None) == 0,
        n <= i64::MAX ==> sequence_of(Some(text::decimal(n))) == n,
        n <= i64::MAX ==> sequence_of(Some(text::decimal(n).push('\n'))) == n,
        -n >= i64::MIN ==> sequence_of(Some(seq!['-'] + text::decimal(n))) == -n,
        sequence_of(None) == 0,
{
    let d = text::decimal(n);
    let m = seq!['-'] + d;
    text::law_numbers_are_written_plainly(n);
    law_signs_and_limits(n, u64::MAX as nat);
    assert('0' <= d[0] <= '9');
    assert('0' <= d[d.len() - 1] <= '9');
    assert(m.last() == d.last() && m[0] == '-');
    assert(trimmed(d) == d);
    assert(d.push('\n').drop_last() =~= d);
    assert(trimmed(d.push('\n')) == trimmed(d));
    assert(trimmed(m) == m);
}

/// The path of a file is its directory, a slash and its name. There is no second slash
/// where the directory ends in one, and none where there is no directory.
pub proof fn law_files_lie_in_their_directory(dir: Seq<char>, name: Seq<char>)
    ensures
        ({
            let r = file_in(dir, name);
            let n = r.len() - name.len();
            &&& n >= 0 && r.skip(n) == name
            &&& dir.len() == 0 ==> n == 0
            &&& dir.len() > 0 ==> r.take(dir.len() as int) == dir && r[n - 1] == '/'
            &&& dir.len() > 0 ==> n == dir.len() + if dir.last() == '/' {
                0int
            } else {
                1int
            }
        }),
{
    reveal_strlit("/");
    let r = file_in(dir, name);
    assert(r.skip(r.len() - name.len()) =~= name);
    assert(r.take(dir.len() as int) =~= dir);
}

/// The name of a marker holds no slash, and else is what it stands for.
pub proof fn law_marker_names_hold_no_slash(s: Seq<char>, i: int)
    requires
        0 <= i < s.len(),
    ensures
        slashes_to_hashes(s).len() == s.len(),
        slashes_to_hashes(s)[i] != '/',
        s[i] != '/' ==> slashes_to_hashes(s)[i] == s[i],
        s[i] == '/' ==> slashes_to_hashes(s)[i] == '#',
{
}

} // verus!
