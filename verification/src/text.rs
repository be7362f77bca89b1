//! Character-level helpers on strings, with their contracts.
use vstd::prelude::*;

verus! {

/// `std::string::String::push`: appends one character; the string's
/// characters become the old ones followed by `c`.
#[verifier::external_body]
pub(crate) fn string_push(s: &mut String, c: char)
    ensures
        final(s)@ == old(s)@.push(c),
{
    s.push(c);
}

/// The characters of `s`.
pub fn chars_of(s: &str) -> (r: Vec<char>)
    ensures
        r@ == s@,
{
    let n = s.unicode_len();
    let mut r: Vec<char> = Vec::new();
    let mut i: usize = 0;
    while i < n
        invariant
            n == s@.len(),
            0 <= i <= n,
            r@ == s@.take(i as int),
        decreases n - i,
    {
        let c = s.get_char(i);
        r.push(c);
        proof {
            assert(s@.take(i + 1) =~= s@.take(i as int).push(c));
        }
        i = i + 1;
    }
    proof {
        assert(s@.take(n as int) =~= s@);
    }
    r
}

/// A string made of the characters `cs[from..to]`.
pub fn string_of_range(cs: &Vec<char>, from: usize, to: usize) -> (r: String)
    requires
        from <= to <= cs@.len(),
    ensures
        r@ == cs@.subrange(from as int, to as int),
{
    let mut r = String::new();
    let mut i: usize = from;
    while i < to
        invariant
            from <= i <= to <= cs@.len(),
            r@ == cs@.subrange(from as int, i as int),
        decreases to - i,
    {
        string_push(&mut r, cs[i]);
        proof {
            assert(cs@.subrange(from as int, i + 1) =~= cs@.subrange(from as int, i as int).push(
                cs@[i as int],
            ));
        }
        i = i + 1;
    }
    r
}

/// A string made of the characters `cs`.
pub fn string_of(cs: &Vec<char>) -> (r: String)
    ensures
        r@ == cs@,
{
    let r = string_of_range(cs, 0, cs.len());
    proof {
        assert(cs@.subrange(0, cs@.len() as int) =~= cs@);
    }
    r
}

/// Whether two character sequences are equal.
pub fn chars_eq(a: &Vec<char>, b: &Vec<char>) -> (r: bool)
    ensures
        r == (a@ == b@),
{
    if a.len() != b.len() {
        return false;
    }
    let n = a.len();
    let mut i: usize = 0;
    while i < n
        invariant
            n == a@.len(),
            n == b@.len(),
            0 <= i <= n,
            forall|k: int| 0 <= k < i ==> a@[k] == b@[k],
        decreases n - i,
    {
        if a[i] != b[i] {
            return false;
        }
        i = i + 1;
    }
    proof {
        assert(a@ =~= b@);
    }
    true
}

/// Whether two strings are equal.
pub fn str_eq(a: &str, b: &str) -> (r: bool)
    ensures
        r == (a@ == b@),
{
    let ca = chars_of(a);
    let cb = chars_of(b);
    chars_eq(&ca, &cb)
}

/// Whether `s` starts with `prefix`.
pub fn starts_with(s: &str, prefix: &str) -> (r: bool)
    ensures
        r == (prefix@.len() <= s@.len() && s@.subrange(0, prefix@.len() as int) == prefix@),
{
    let cs = chars_of(s);
    let cp = chars_of(prefix);
    if cp.len() > cs.len() {
        return false;
    }
    let n = cp.len();
    let mut i: usize = 0;
    while i < n
        invariant
            n == cp@.len(),
            n <= cs@.len(),
            cs@ == s@,
            cp@ == prefix@,
            0 <= i <= n,
            forall|k: int| 0 <= k < i ==> cs@[k] == cp@[k],
        decreases n - i,
    {
        if cs[i] != cp[i] {
            proof {
                assert(s@.subrange(0, n as int)[i as int] != prefix@[i as int]);
            }
            return false;
        }
        i = i + 1;
    }
    proof {
        assert(s@.subrange(0, n as int) =~= prefix@);
    }
    true
}

/// `sep` occurs in `s` at position `i`.
pub open spec fn occurs_at(s: Seq<char>, sep: Seq<char>, i: int) -> bool {
    0 <= i && i + sep.len() <= s.len() && s.subrange(i, i + sep.len()) == sep
}

/// First position at or after `from` where `sep` occurs in `s`, if any.
pub open spec fn first_occurrence(s: Seq<char>, sep: Seq<char>, from: int) -> Option<int>
    decreases s.len() + 1 - from,
{
    if from < 0 || from + sep.len() > s.len() {
        None
    } else if occurs_at(s, sep, from) {
        Some(from)
    } else {
        first_occurrence(s, sep, from + 1)
    }
}

/// What `first_occurrence` finds is an occurrence at or after `from`, and
/// none comes before it.
pub proof fn lemma_first_occurrence(s: Seq<char>, sep: Seq<char>, from: int)
    requires
        from >= 0,
    ensures
        first_occurrence(s, sep, from) matches Some(i) ==> from <= i && occurs_at(s, sep, i) && forall|k: int|
            from <= k < i ==> !occurs_at(s, sep, k),
        first_occurrence(s, sep, from) is None ==> forall|k: int| from <= k ==> !occurs_at(s, sep, k),
    decreases s.len() + 1 - from,
{
    if from + sep.len() > s.len() {
    } else if occurs_at(s, sep, from) {
    } else {
        lemma_first_occurrence(s, sep, from + 1);
    }
}

/// The pieces of `s[start..]` between occurrences of `sep`, as `str::split`
/// cuts them.
pub open spec fn split_from(s: Seq<char>, sep: Seq<char>, start: int) -> Seq<Seq<char>>
    decreases s.len() - start,
{
    if sep.len() == 0 || start < 0 || start > s.len() {
        seq![s.subrange(start, s.len() as int)]
    } else {
        match first_occurrence(s, sep, start) {
            None => seq![s.subrange(start, s.len() as int)],
            Some(i) => {
                proof {
                    lemma_first_occurrence(s, sep, start);
                }
                seq![s.subrange(start, i)] + split_from(s, sep, i + sep.len())
            },
        }
    }
}

/// The pieces of `s` between occurrences of `sep` (`str::split`).
pub open spec fn split_seq(s: Seq<char>, sep: Seq<char>) -> Seq<Seq<char>> {
    split_from(s, sep, 0)
}

/// Whether `sep` occurs in `cs` at position `i`.
fn occurs_at_exec(cs: &Vec<char>, sep: &Vec<char>, i: usize) -> (r: bool)
    ensures
        r == occurs_at(cs@, sep@, i as int),
{
    let m = cs.len();
    if i > m || sep.len() > m - i {
        return false;
    }
    let n = sep.len();
    let mut k: usize = 0;
    while k < n
        invariant
            n == sep@.len(),
            m == cs@.len(),
            i + n <= m,
            0 <= k <= n,
            forall|j: int| 0 <= j < k ==> cs@[i + j] == sep@[j],
        decreases n - k,
    {
        if cs[i + k] != sep[k] {
            proof {
                assert(cs@.subrange(i as int, i + n)[k as int] != sep@[k as int]);
            }
            return false;
        }
        k = k + 1;
    }
    proof {
        assert(cs@.subrange(i as int, i + n) =~= sep@);
    }
    true
}

/// First position at or after `from` where `sep` occurs in `cs`, if any.
pub fn find_from(cs: &Vec<char>, sep: &Vec<char>, from: usize) -> (r: Option<usize>)
    requires
        sep@.len() > 0,
    ensures
        match first_occurrence(cs@, sep@, from as int) {
            Some(i) => r == Some(i as usize),
            None => r is None,
        },
{
    let n = cs.len();
    if sep.len() > n {
        return None;
    }
    let last = n - sep.len();
    let mut i: usize = from;
    while i <= last
        invariant
            n == cs@.len(),
            0 < sep@.len() <= n,
            last == n - sep@.len(),
            from <= i,
            first_occurrence(cs@, sep@, from as int) == first_occurrence(cs@, sep@, i as int),
        decreases n - i,
    {
        if occurs_at_exec(cs, sep, i) {
            return Some(i);
        }
        i = i + 1;
    }
    None
}

/// The pieces of `cs` between occurrences of `sep`, as `str::split` cuts them.
pub fn split_chars(cs: &Vec<char>, sep: &Vec<char>) -> (r: Vec<Vec<char>>)
    requires
        sep@.len() > 0,
    ensures
        r@.map_values(|v: Vec<char>| v@) == split_seq(cs@, sep@),
{
    let mut pieces: Vec<Vec<char>> = Vec::new();
    let mut start: usize = 0;
    let m = cs.len();
    loop
        invariant
            m == cs@.len(),
            sep@.len() > 0,
            start <= cs@.len(),
            pieces@.map_values(|v: Vec<char>| v@) + split_from(cs@, sep@, start as int) == split_from(cs@, sep@, 0),
        decreases cs@.len() - start,
    {
        let ghost p0 = pieces@.map_values(|v: Vec<char>| v@);
        proof {
            lemma_first_occurrence(cs@, sep@, start as int);
        }
        match find_from(cs, sep, start) {
            Some(i) => {
                proof {
                    let fo = first_occurrence(cs@, sep@, start as int);
                    if fo is None {
                        assert(false);
                    }
                    let j = fo->0;
                    assert(start <= j && occurs_at(cs@, sep@, j));
                    assert(j + sep@.len() <= m);
                    assert(j as usize == i);
                    assert(fo == Some(i as int));
                }
                let piece = slice_chars(cs, start, i);
                pieces.push(piece);
                proof {
                    assert(pieces@.map_values(|v: Vec<char>| v@) =~= p0.push(cs@.subrange(start as int, i as int)));
                    assert(split_from(cs@, sep@, start as int) == seq![cs@.subrange(start as int, i as int)] + split_from(
                        cs@,
                        sep@,
                        i + sep@.len(),
                    ));
                    assert(p0.push(cs@.subrange(start as int, i as int)) + split_from(cs@, sep@, i + sep@.len()) =~= p0
                        + (seq![cs@.subrange(start as int, i as int)] + split_from(cs@, sep@, i + sep@.len())));
                }
                start = i + sep.len();
            },
            None => {
                let piece = slice_chars(cs, start, cs.len());
                pieces.push(piece);
                proof {
                    assert(pieces@.map_values(|v: Vec<char>| v@) =~= p0.push(cs@.subrange(start as int, cs@.len() as int)));
                    assert(split_from(cs@, sep@, start as int) == seq![cs@.subrange(start as int, cs@.len() as int)]);
                    assert(p0 + seq![cs@.subrange(start as int, cs@.len() as int)] =~= p0.push(cs@.subrange(start as int, cs@.len() as int)));
                }
                return pieces;
            },
        }
    }
}

/// The characters `cs[from..to]`.
pub fn slice_chars(cs: &Vec<char>, from: usize, to: usize) -> (r: Vec<char>)
    requires
        from <= to <= cs@.len(),
    ensures
        r@ == cs@.subrange(from as int, to as int),
{
    let mut r: Vec<char> = Vec::new();
    let mut i: usize = from;
    while i < to
        invariant
            from <= i <= to <= cs@.len(),
            r@ == cs@.subrange(from as int, i as int),
        decreases to - i,
    {
        r.push(cs[i]);
        proof {
            assert(cs@.subrange(from as int, i + 1) =~= cs@.subrange(from as int, i as int).push(cs@[i as int]));
        }
        i = i + 1;
    }
    r
}

/// The character of a decimal digit `d`.
pub open spec fn digit_char(d: int) -> char {
    if d == 0 {
        '0'
    } else if d == 1 {
        '1'
    } else if d == 2 {
        '2'
    } else if d == 3 {
        '3'
    } else if d == 4 {
        '4'
    } else if d == 5 {
        '5'
    } else if d == 6 {
        '6'
    } else if d == 7 {
        '7'
    } else if d == 8 {
        '8'
    } else {
        '9'
    }
}

/// `n` written in decimal, without leading zeros (as `to_string` writes it).
pub open spec fn decimal(n: nat) -> Seq<char>
    decreases n,
{
    if n < 10 {
        seq![digit_char(n as int)]
    } else {
        decimal(n / 10).push(digit_char((n % 10) as int))
    }
}

fn digit_char_exec(d: u64) -> (c: char)
    requires
        d < 10,
    ensures
        c == digit_char(d as int),
{
    if d == 0 {
        '0'
    } else if d == 1 {
        '1'
    } else if d == 2 {
        '2'
    } else if d == 3 {
        '3'
    } else if d == 4 {
        '4'
    } else if d == 5 {
        '5'
    } else if d == 6 {
        '6'
    } else if d == 7 {
        '7'
    } else if d == 8 {
        '8'
    } else {
        '9'
    }
}

/// `n` written in decimal.
pub fn decimal_string(n: u64) -> (r: String)
    ensures
        r@ == decimal(n as nat),
{
    let mut m: u64 = n;
    let mut tail: Vec<char> = Vec::new();
    while m >= 10
        invariant
            decimal(n as nat) == decimal(m as nat) + tail@,
        decreases m,
    {
        let c = digit_char_exec(m % 10);
        let ghost t0 = tail@;
        tail.insert(0, c);
        proof {
            assert(decimal(m as nat) == decimal((m / 10) as nat).push(c));
            assert(decimal((m / 10) as nat).push(c) + t0 =~= decimal((m / 10) as nat) + tail@);
        }
        m = m / 10;
    }
    let c = digit_char_exec(m);
    tail.insert(0, c);
    proof {
        assert(decimal(m as nat) == seq![c]);
    }
    string_of(&tail)
}

/// `s` right-aligned in a field of width two, filled with `0` (`{:0>2}`).
pub open spec fn pad2(s: Seq<char>) -> Seq<char> {
    if s.len() >= 2 {
        s
    } else {
        Seq::new((2 - s.len()) as nat, |i: int| '0') + s
    }
}

/// `s` right-aligned in a field of width two, filled with `0`.
pub fn pad2_string(s: &str) -> (r: String)
    ensures
        r@ == pad2(s@),
{
    let cs = chars_of(s);
    let mut r: Vec<char> = Vec::new();
    let mut k: usize = cs.len();
    while k < 2
        invariant
            cs@ == s@,
            cs@.len() <= k <= 2 || (k == cs@.len() && k >= 2),
            r@ == Seq::new((k - cs@.len()) as nat, |i: int| '0'),
        decreases 2 - k,
    {
        r.push('0');
        proof {
            assert(r@ =~= Seq::new((k + 1 - cs@.len()) as nat, |i: int| '0'));
        }
        k = k + 1;
    }
    let mut i: usize = 0;
    let ghost fill = r@;
    while i < cs.len()
        invariant
            cs@ == s@,
            0 <= i <= cs@.len(),
            r@ == fill + cs@.take(i as int),
        decreases cs@.len() - i,
    {
        r.push(cs[i]);
        proof {
            assert(cs@.take(i + 1) =~= cs@.take(i as int).push(cs@[i as int]));
            assert(fill + cs@.take(i + 1) =~= (fill + cs@.take(i as int)).push(cs@[i as int]));
        }
        i = i + 1;
    }
    proof {
        assert(cs@.take(cs@.len() as int) =~= cs@);
        if cs@.len() >= 2 {
            assert(fill =~= Seq::<char>::empty());
            assert(fill + cs@ =~= cs@);
        }
    }
    string_of(&r)
}

/// A character with the Unicode `White_Space` property, which is what
/// `char::is_whitespace` tests.
pub open spec fn is_white_space(c: char) -> bool {
    ||| ('\u{9}' <= c && c <= '\u{d}')
    ||| c == ' '
    ||| c == '\u{85}'
    ||| c == '\u{a0}'
    ||| c == '\u{1680}'
    ||| ('\u{2000}' <= c && c <= '\u{200a}')
    ||| c == '\u{2028}'
    ||| c == '\u{2029}'
    ||| c == '\u{202f}'
    ||| c == '\u{205f}'
    ||| c == '\u{3000}'
}

fn is_white_space_exec(c: char) -> (r: bool)
    ensures
        r == is_white_space(c),
{
    ('\u{9}' <= c && c <= '\u{d}') || c == ' ' || c == '\u{85}' || c == '\u{a0}' || c == '\u{1680}' || (
    '\u{2000}' <= c && c <= '\u{200a}') || c == '\u{2028}' || c == '\u{2029}' || c == '\u{202f}' || c
        == '\u{205f}' || c == '\u{3000}'
}

/// The words of `s`: its maximal runs of characters that are not white
/// space, in order (what `str::split_whitespace` yields).
pub open spec fn words(s: Seq<char>) -> Seq<Seq<char>>
    decreases s.len(),
{
    if s.len() == 0 {
        seq![]
    } else {
        let w = words(s.drop_last());
        if is_white_space(s.last()) {
            w
        } else if s.len() >= 2 && !is_white_space(s[s.len() - 2]) {
            w.drop_last().push(w.last().push(s.last()))
        } else {
            w.push(seq![s.last()])
        }
    }
}

/// A non-empty text that ends in a word has at least one word.
proof fn lemma_words_nonempty(s: Seq<char>)
    requires
        s.len() > 0,
        !is_white_space(s.last()),
    ensures
        words(s).len() > 0,
{
}

/// The words of `s`, as `str::split_whitespace` yields them.
pub fn split_whitespace(s: &str) -> (r: Vec<String>)
    ensures
        r@.map_values(|x: String| x@) == words(s@),
{
    let cs = chars_of(s);
    let mut out: Vec<Vec<char>> = Vec::new();
    let mut i: usize = 0;
    while i < cs.len()
        invariant
            cs@ == s@,
            0 <= i <= cs@.len(),
            out@.map_values(|v: Vec<char>| v@) == words(cs@.take(i as int)),
        decreases cs@.len() - i,
    {
        let c = cs[i];
        let ghost w0 = out@.map_values(|v: Vec<char>| v@);
        proof {
            assert(cs@.take(i + 1).drop_last() =~= cs@.take(i as int));
            assert(cs@.take(i + 1).last() == c);
        }
        if is_white_space_exec(c) {
        } else if i >= 1 && !is_white_space_exec(cs[i - 1]) {
            proof {
                assert(cs@.take(i + 1)[i - 1] == cs@[i - 1]);
                assert(cs@.take(i as int).last() == cs@[i - 1]);
                lemma_words_nonempty(cs@.take(i as int));
            }
            let mut last = out.pop().unwrap();
            last.push(c);
            out.push(last);
            proof {
                assert(out@.map_values(|v: Vec<char>| v@) =~= w0.drop_last().push(w0.last().push(c)));
            }
        } else {
            let mut word: Vec<char> = Vec::new();
            word.push(c);
            out.push(word);
            proof {
                if i >= 1 {
                    assert(cs@.take(i + 1)[i - 1] == cs@[i - 1]);
                }
                assert(word@ =~= seq![c]);
                assert(out@.map_values(|v: Vec<char>| v@) =~= w0.push(seq![c]));
            }
        }
        i = i + 1;
    }
    proof {
        assert(cs@.take(cs@.len() as int) =~= cs@);
    }
    let mut r: Vec<String> = Vec::new();
    let mut k: usize = 0;
    while k < out.len()
        invariant
            0 <= k <= out@.len(),
            out@.map_values(|v: Vec<char>| v@) == words(s@),
            r@.map_values(|x: String| x@) == out@.map_values(|v: Vec<char>| v@).take(k as int),
        decreases out@.len() - k,
    {
        let ghost r0 = r@;
        let w = string_of(&out[k]);
        r.push(w);
        proof {
            assert(r@ == r0.push(w));
            assert(w@ == out@.map_values(|v: Vec<char>| v@)[k as int]);
            let rv = r@.map_values(|x: String| x@);
            let ov = out@.map_values(|v: Vec<char>| v@);
            assert(r0.map_values(|x: String| x@).len() == k);
            assert(r0.len() == k);
            assert(r@.len() == k + 1);
            assert(rv.len() == k + 1);
            assert(ov.take(k + 1).len() == k + 1);
            assert forall|j: int| 0 <= j < k + 1 implies rv[j] == ov.take(k + 1)[j] by {
                assert(rv[j] == r@[j]@);
                if j < k {
                    assert(r@[j] == r0[j]);
                    assert(r0.map_values(|x: String| x@)[j] == ov.take(k as int)[j]);
                }
            }
            assert(rv =~= ov.take(k + 1));
        }
        k = k + 1;
    }
    proof {
        assert(out@.map_values(|v: Vec<char>| v@).take(out@.len() as int) =~= out@.map_values(|v: Vec<char>| v@));
    }
    r
}

/// `s` with every leading repetition of `p` removed
/// (`str::trim_start_matches` with a string pattern).
pub open spec fn trim_start_all(s: Seq<char>, p: Seq<char>) -> Seq<char>
    decreases s.len(),
{
    if p.len() > 0 && p.len() <= s.len() && s.take(p.len() as int) == p {
        trim_start_all(s.skip(p.len() as int), p)
    } else {
        s
    }
}

/// Whether `p` occurs in `cs` at position `i`.
fn prefix_at(cs: &Vec<char>, p: &Vec<char>, i: usize) -> (r: bool)
    requires
        i <= cs@.len(),
    ensures
        r == (p@.len() <= cs@.len() - i && cs@.skip(i as int).take(p@.len() as int) == p@),
{
    let n = cs.len();
    let m = p.len();
    if m > n - i {
        return false;
    }
    let mut k: usize = 0;
    while k < m
        invariant
            n == cs@.len(),
            m == p@.len(),
            i + m <= n,
            0 <= k <= m,
            forall|j: int| 0 <= j < k ==> cs@[i + j] == p@[j],
        decreases m - k,
    {
        if cs[i + k] != p[k] {
            proof {
                assert(cs@.skip(i as int).take(m as int)[k as int] == cs@[i + k]);
            }
            return false;
        }
        k = k + 1;
    }
    proof {
        assert(cs@.skip(i as int).take(m as int) =~= p@);
    }
    true
}

/// The characters of `cs` after every leading repetition of `p`.
pub fn trim_start_all_chars(cs: &Vec<char>, p: &Vec<char>) -> (r: Vec<char>)
    ensures
        r@ == trim_start_all(cs@, p@),
{
    let n = cs.len();
    let m = p.len();
    let mut i: usize = 0;
    proof {
        assert(cs@.skip(0) =~= cs@);
    }
    while m > 0 && prefix_at(cs, p, i)
        invariant
            n == cs@.len(),
            m == p@.len(),
            i <= n,
            trim_start_all(cs@, p@) == trim_start_all(cs@.skip(i as int), p@),
        decreases n - i,
    {
        proof {
            assert(cs@.skip(i as int).skip(m as int) =~= cs@.skip(i + m));
        }
        i = i + m;
    }
    let r = slice_chars(cs, i, n);
    proof {
        assert(cs@.subrange(i as int, n as int) =~= cs@.skip(i as int));
    }
    r
}

/// A lower-case hexadecimal digit of `d` (below sixteen).
pub open spec fn hex_digit(d: int) -> char {
    if d < 10 {
        digit_char(d)
    } else if d == 10 {
        'a'
    } else if d == 11 {
        'b'
    } else if d == 12 {
        'c'
    } else if d == 13 {
        'd'
    } else if d == 14 {
        'e'
    } else {
        'f'
    }
}

/// `bytes` in lower-case hexadecimal, two digits per byte, high digit first.
pub open spec fn hex_of(bytes: Seq<u8>) -> Seq<char>
    decreases bytes.len(),
{
    if bytes.len() == 0 {
        seq![]
    } else {
        hex_of(bytes.drop_last()) + seq![hex_digit(bytes.last() as int / 16), hex_digit(bytes.last() as int % 16)]
    }
}

fn hex_digit_exec(d: u8) -> (c: char)
    requires
        d < 16,
    ensures
        c == hex_digit(d as int),
{
    if d < 10 {
        digit_char_exec(d as u64)
    } else if d == 10 {
        'a'
    } else if d == 11 {
        'b'
    } else if d == 12 {
        'c'
    } else if d == 13 {
        'd'
    } else if d == 14 {
        'e'
    } else {
        'f'
    }
}

/// `bytes` in lower-case hexadecimal (as `hex::encode` writes them).
pub fn hex_string(bytes: &[u8]) -> (r: String)
    ensures
        r@ == hex_of(bytes@),
        r@.len() == 2 * bytes@.len(),
{
    let mut out: Vec<char> = Vec::new();
    let mut i: usize = 0;
    while i < bytes.len()
        invariant
            0 <= i <= bytes@.len(),
            out@ == hex_of(bytes@.take(i as int)),
            out@.len() == 2 * i,
        decreases bytes@.len() - i,
    {
        let b = bytes[i];
        out.push(hex_digit_exec(b / 16));
        out.push(hex_digit_exec(b % 16));
        proof {
            assert(bytes@.take(i + 1).drop_last() =~= bytes@.take(i as int));
            assert(bytes@.take(i + 1).last() == b);
            assert(out@ =~= hex_of(bytes@.take(i as int)) + seq![hex_digit(b as int / 16), hex_digit(b as int % 16)]);
        }
        i = i + 1;
    }
    proof {
        assert(bytes@.take(bytes@.len() as int) =~= bytes@);
    }
    string_of(&out)
}

/// Decimal text is made of digits and is never empty.
pub proof fn lemma_decimal_digits(n: nat)
    ensures
        decimal(n).len() >= 1,
        forall|i: int| 0 <= i < decimal(n).len() ==> '0' <= #[trigger] decimal(n)[i] <= '9',
    decreases n,
{
    if n >= 10 {
        lemma_decimal_digits(n / 10);
        let d = decimal(n);
        let d0 = decimal(n / 10);
        assert forall|i: int| 0 <= i < d.len() implies '0' <= #[trigger] d[i] <= '9' by {
            if i < d0.len() {
                assert(d[i] == d0[i]);
            }
        }
    }
}

/// Text without `c` has no occurrence of a separator that starts with
/// `c`.
pub proof fn lemma_no_occurrence(s: Seq<char>, sep: Seq<char>, c: char)
    requires
        sep.len() > 0,
        sep[0] == c,
        forall|i: int| 0 <= i < s.len() ==> s[i] != c,
    ensures
        first_occurrence(s, sep, 0) is None,
        split_seq(s, sep) == seq![s],
{
    lemma_first_occurrence(s, sep, 0);
    if first_occurrence(s, sep, 0) is Some {
        let i = first_occurrence(s, sep, 0)->0;
        assert(s.subrange(i, i + sep.len())[0] == s[i]);
    }
    assert(s.subrange(0, s.len() as int) =~= s);
}

/// `l` without one `\r` at its end.
pub open spec fn strip_cr(l: Seq<char>) -> Seq<char> {
    if l.len() > 0 && l.last() == '\r' {
        l.drop_last()
    } else {
        l
    }
}

/// The lines of `s`, as `str::lines` yields them: split at each `\n`,
/// with a `\r` before a `\n` dropped, and no empty line after a final
/// `\n`.
pub open spec fn spec_lines(s: Seq<char>) -> Seq<Seq<char>> {
    let p = split_seq(s, seq!['\n']);
    let body = Seq::new((p.len() - 1) as nat, |k: int| strip_cr(p[k]));
    if p.last().len() == 0 {
        body
    } else {
        body.push(p.last())
    }
}

/// Splitting always gives a piece.
proof fn lemma_split_nonempty(s: Seq<char>, sep: Seq<char>, start: int)
    ensures
        split_from(s, sep, start).len() >= 1,
    decreases s.len() - start,
{
    if sep.len() == 0 || start < 0 || start > s.len() {
    } else {
        lemma_first_occurrence(s, sep, start);
        match first_occurrence(s, sep, start) {
            None => {},
            Some(i) => {
                lemma_split_nonempty(s, sep, i + sep.len());
            },
        }
    }
}

/// The lines of `s`.
pub fn lines(s: &str) -> (r: Vec<Vec<char>>)
    ensures
        r@.map_values(|l: Vec<char>| l@) == spec_lines(s@),
{
    let cs = chars_of(s);
    let mut nl: Vec<char> = Vec::new();
    nl.push('\n');
    proof {
        assert(nl@ =~= seq!['\n']);
        lemma_split_nonempty(cs@, nl@, 0);
    }
    let pieces = split_chars(&cs, &nl);
    let ghost p = pieces@.map_values(|v: Vec<char>| v@);
    let n = pieces.len();
    let mut out: Vec<Vec<char>> = Vec::new();
    let mut k: usize = 0;
    while k + 1 < n
        invariant
            n == pieces@.len(),
            n >= 1,
            p == pieces@.map_values(|v: Vec<char>| v@),
            0 <= k <= n - 1,
            out@.map_values(|l: Vec<char>| l@) == Seq::new(k as nat, |j: int| strip_cr(p[j])),
        decreases n - k,
    {
        let piece = &pieces[k];
        let m = piece.len();
        let line = if m > 0 && piece[m - 1] == '\r' {
            slice_chars(piece, 0, m - 1)
        } else {
            slice_chars(piece, 0, m)
        };
        proof {
            assert(p[k as int] == piece@);
            if m > 0 && piece@[m - 1] == '\r' {
                assert(line@ =~= strip_cr(p[k as int]));
            } else {
                assert(line@ =~= strip_cr(p[k as int]));
            }
        }
        let ghost o0 = out@;
        let ghost lv = line@;
        out.push(line);
        proof {
            let ov = out@.map_values(|l: Vec<char>| l@);
            let want = Seq::new((k + 1) as nat, |j: int| strip_cr(p[j]));
            assert(out@ == o0.push(line));
            assert(o0.map_values(|l: Vec<char>| l@).len() == k);
            assert forall|j: int| 0 <= j < k + 1 implies ov[j] == want[j] by {
                if j < k {
                    assert(out@[j] == o0[j]);
                    assert(o0.map_values(|l: Vec<char>| l@)[j] == strip_cr(p[j]));
                } else {
                    assert(out@[j] == line);
                }
            }
            assert(ov =~= want);
        }
        k = k + 1;
    }
    let last = &pieces[n - 1];
    if last.len() > 0 {
        let l = slice_chars(last, 0, last.len());
        let ghost o0 = out@;
        out.push(l);
        proof {
            assert(p.last() == last@);
            assert(last@.subrange(0, last@.len() as int) =~= last@);
            let ov = out@.map_values(|x: Vec<char>| x@);
            let want = Seq::new((n - 1) as nat, |j: int| strip_cr(p[j])).push(p.last());
            assert(out@ == o0.push(l));
            assert(o0.map_values(|x: Vec<char>| x@).len() == n - 1);
            assert forall|j: int| 0 <= j < n implies ov[j] == want[j] by {
                if j < n - 1 {
                    assert(out@[j] == o0[j]);
                    assert(o0.map_values(|x: Vec<char>| x@)[j] == strip_cr(p[j]));
                } else {
                    assert(out@[j] == l);
                }
            }
            assert(ov =~= want);
        }
    } else {
        proof {
            assert(p.last() == last@);
        }
    }
    out
}

} // verus!
