//! The problem manifest as written by problem authors, and its
//! post-processing into a checked problem description: test mappings such
//! as `1..3,5` are parsed, test blocks are expanded and the tests must
//! number exactly 1 to n.
use vstd::prelude::*;
use vstd::string::StringSliceAdditionalSpecFns;
use crate::pom::{Limits, default_limits};
use crate::text::{chars_of, first_occurrence, split_chars, split_seq, string_of, find_from, decimal, digit_char, lemma_decimal_digits, lemma_no_occurrence};

verus! {

/// Why text is not a `u32`, as `u32::from_str` reports it.
#[derive(Debug, Clone, Copy, PartialEq, Eq, Structural)]
pub enum IntErrorKind {
    /// cannot parse integer from empty string
    Empty,
    /// invalid digit found in string
    InvalidDigit,
    /// number too large to fit in target type
    PosOverflow,
}

/// A decimal digit.
pub open spec fn is_digit(c: char) -> bool {
    '0' <= c && c <= '9'
}

/// Value of a decimal digit.
pub open spec fn digit_value(c: char) -> int {
    c as int - '0' as int
}

/// Reading digits `ds` left to right: the first non-digit is an invalid
/// digit, the first digit that takes the value past `u32::MAX` an overflow.
pub open spec fn read_digits(ds: Seq<char>) -> Result<u32, IntErrorKind>
    decreases ds.len(),
{
    if ds.len() == 0 {
        Ok(0)
    } else {
        match read_digits(ds.drop_last()) {
            Err(e) => Err(e),
            Ok(v) => if !is_digit(ds.last()) {
                Err(IntErrorKind::InvalidDigit)
            } else if v * 10 + digit_value(ds.last()) > u32::MAX {
                Err(IntErrorKind::PosOverflow)
            } else {
                Ok((v * 10 + digit_value(ds.last())) as u32)
            },
        }
    }
}

/// `u32::from_str`: an optional `+`, then decimal digits.
pub open spec fn spec_parse_u32(s: Seq<char>) -> Result<u32, IntErrorKind> {
    if s.len() == 0 {
        Err(IntErrorKind::Empty)
    } else if s[0] == '+' {
        if s.len() == 1 {
            Err(IntErrorKind::InvalidDigit)
        } else {
            read_digits(s.drop_first())
        }
    } else {
        read_digits(s)
    }
}

/// Parses `cs` as `u32::from_str` does.
pub fn parse_u32(cs: &Vec<char>) -> (r: Result<u32, IntErrorKind>)
    ensures
        r == spec_parse_u32(cs@),
{
    let n = cs.len();
    if n == 0 {
        return Err(IntErrorKind::Empty);
    }
    let mut start: usize = 0;
    if cs[0] == '+' {
        if n == 1 {
            return Err(IntErrorKind::InvalidDigit);
        }
        start = 1;
    }
    let ghost ds = cs@.subrange(start as int, n as int);
    proof {
        if start == 1 {
            assert(ds =~= cs@.drop_first());
        } else {
            assert(ds =~= cs@);
        }
    }
    let mut v: u32 = 0;
    let mut i: usize = start;
    while i < n
        invariant
            n == cs@.len(),
            start <= i <= n,
            ds == cs@.subrange(start as int, n as int),
            spec_parse_u32(cs@) == read_digits(ds),
            read_digits(ds.take(i - start)) == Ok::<u32, IntErrorKind>(v),
        decreases n - i,
    {
        let c = cs[i];
        proof {
            assert(ds.take(i - start + 1).drop_last() =~= ds.take(i - start));
            assert(ds.take(i - start + 1).last() == c);
        }
        if !('0' <= c && c <= '9') {
            proof {
                assert(!is_digit(c));
                assert(read_digits(ds.take(i - start + 1)) == Err::<u32, IntErrorKind>(IntErrorKind::InvalidDigit));
                lemma_read_digits_err(ds, (i - start + 1) as int);
            }
            return Err(IntErrorKind::InvalidDigit);
        }
        let d = (c as u32) - ('0' as u32);
        if v > 429496729 || (v == 429496729 && d > 5) {
            proof {
                assert(d == digit_value(c));
                assert(v * 10 + digit_value(c) > u32::MAX);
                assert(read_digits(ds.take(i - start + 1)) == Err::<u32, IntErrorKind>(IntErrorKind::PosOverflow));
                lemma_read_digits_err(ds, (i - start + 1) as int);
            }
            return Err(IntErrorKind::PosOverflow);
        }
        v = v * 10 + d;
        i = i + 1;
    }
    proof {
        assert(ds.take(n - start) =~= ds);
    }
    Ok(v)
}

/// An error of a prefix of digits is the error of all of them.
proof fn lemma_read_digits_err(ds: Seq<char>, k: int)
    requires
        0 <= k <= ds.len(),
        read_digits(ds.take(k)) is Err,
    ensures
        read_digits(ds) == read_digits(ds.take(k)),
    decreases ds.len() - k,
{
    if k < ds.len() {
        assert(ds.take(k + 1).drop_last() =~= ds.take(k));
        lemma_read_digits_err(ds, k + 1);
    } else {
        assert(ds.take(k) =~= ds);
    }
}

/// Why a chunk of a test mapping is rejected.
#[derive(Debug, Clone, Copy, PartialEq, Eq, Structural)]
pub enum ChunkError {
    /// range map chunk must look like x..y
    RangeShape,
    /// couldn't parse range bound
    RangeBound(IntErrorKind),
    /// range begin must be less than or equal to range end
    RangeOrder,
    /// couldn't parse number
    Number(IntErrorKind),
}

/// The separator of range bounds.
pub open spec fn dots() -> Seq<char> {
    seq!['.', '.']
}

/// The ids `b..=e`.
pub open spec fn range_ids(b: u32, e: u32) -> Seq<u32> {
    Seq::new((e - b + 1) as nat, |k: int| (b + k) as u32)
}

/// The test ids a chunk of a mapping stands for: `x..y` for a range, or a
/// single number.
pub open spec fn spec_chunk(ch: Seq<char>) -> Result<Seq<u32>, ChunkError> {
    if first_occurrence(ch, dots(), 0) is Some {
        let parts = split_seq(ch, dots());
        if parts.len() != 2 {
            Err(ChunkError::RangeShape)
        } else {
            match spec_parse_u32(parts[0]) {
                Err(e) => Err(ChunkError::RangeBound(e)),
                Ok(b) => match spec_parse_u32(parts[1]) {
                    Err(e) => Err(ChunkError::RangeBound(e)),
                    Ok(e) => if b > e {
                        Err(ChunkError::RangeOrder)
                    } else {
                        Ok(range_ids(b, e))
                    },
                },
            }
        }
    } else {
        match spec_parse_u32(ch) {
            Ok(n) => Ok(seq![n]),
            Err(e) => Err(ChunkError::Number(e)),
        }
    }
}

/// The ids `b..=e`.
fn collect_range(b: u32, e: u32) -> (r: Vec<u32>)
    requires
        b <= e,
    ensures
        r@ == range_ids(b, e),
{
    let mut r: Vec<u32> = Vec::new();
    let mut x: u32 = b;
    loop
        invariant
            b <= x <= e,
            r@ == range_ids(b, (x - 1) as u32) || (x == b && r@.len() == 0),
            r@.len() == x - b,
            forall|k: int| 0 <= k < r@.len() ==> r@[k] == b + k,
        decreases e - x,
    {
        r.push(x);
        if x == e {
            proof {
                assert(r@ =~= range_ids(b, e));
            }
            return r;
        }
        x = x + 1;
    }
}

/// Parses one chunk of a test mapping.
fn parse_mapping_chunk(ch: &Vec<char>) -> (r: Result<Vec<u32>, ChunkError>)
    ensures
        match spec_chunk(ch@) {
            Ok(ids) => r matches Ok(v) && v@ == ids,
            Err(e) => r == Err::<Vec<u32>, ChunkError>(e),
        },
{
    let dots_v: Vec<char> = vec!['.', '.'];
    proof {
        assert(dots_v@ =~= dots());
    }
    if find_from(ch, &dots_v, 0).is_some() {
        let parts = split_chars(ch, &dots_v);
        proof {
            assert(parts@.len() == split_seq(ch@, dots()).len());
        }
        if parts.len() != 2 {
            return Err(ChunkError::RangeShape);
        }
        proof {
            assert(parts@[0]@ == split_seq(ch@, dots())[0]);
            assert(parts@[1]@ == split_seq(ch@, dots())[1]);
        }
        let b = match parse_u32(&parts[0]) {
            Ok(b) => b,
            Err(e) => {
                return Err(ChunkError::RangeBound(e));
            },
        };
        let e = match parse_u32(&parts[1]) {
            Ok(e) => e,
            Err(err) => {
                return Err(ChunkError::RangeBound(err));
            },
        };
        if b > e {
            return Err(ChunkError::RangeOrder);
        }
        return Ok(collect_range(b, e));
    }
    match parse_u32(ch) {
        Ok(n) => {
            let mut v: Vec<u32> = Vec::new();
            v.push(n);
            proof {
                assert(v@ =~= seq![n]);
            }
            Ok(v)
        },
        Err(e) => Err(ChunkError::Number(e)),
    }
}

/// The separator of mapping chunks.
pub open spec fn commas() -> Seq<char> {
    seq![',']
}

/// Ids of the chunks, concatenated; or the position and reason of the
/// first chunk that is rejected.
pub open spec fn mapping_of_chunks(chunks: Seq<Seq<char>>) -> Result<Seq<u32>, (int, ChunkError)>
    decreases chunks.len(),
{
    if chunks.len() == 0 {
        Ok(Seq::empty())
    } else {
        match mapping_of_chunks(chunks.drop_last()) {
            Err(e) => Err(e),
            Ok(v) => match spec_chunk(chunks.last()) {
                Err(r) => Err(((chunks.len() - 1) as int, r)),
                Ok(ids) => Ok(v + ids),
            },
        }
    }
}

/// Ids of a test mapping such as `1..3,5`.
pub open spec fn spec_mapping(map: Seq<char>) -> Result<Seq<u32>, (int, ChunkError)> {
    mapping_of_chunks(split_seq(map, commas()))
}

/// Ids never decrease along `s`.
pub open spec fn non_decreasing(s: Seq<u32>) -> bool {
    forall|i: int, j: int| 0 <= i < j < s.len() ==> s[i] <= s[j]
}

/// Position of the first formatting error among `names`, if any.
pub open spec fn first_format_error(names: Seq<Result<String, String>>) -> Option<int>
    decreases names.len(),
{
    if names.len() == 0 {
        None
    } else {
        match first_format_error(names.drop_last()) {
            Some(k) => Some(k),
            None => if names.last() is Err {
                Some((names.len() - 1) as int)
            } else {
                None
            },
        }
    }
}

/// Custom checker options.
#[derive(Debug, Clone, Copy)]
pub struct CustomCheck {
    pub pass_correct: bool,
}

/// Builtin checker, by name.
#[derive(Debug, Clone)]
pub struct BuiltinCheck {
    pub name: String,
}

/// Extra arguments of the checker.
#[derive(Debug, Clone)]
pub struct CheckOptions {
    pub args: Vec<String>,
}

/// A block of tests in the manifest: which ids, where they come from, and
/// their limits and group.
#[derive(Debug, Clone)]
pub struct RawTestsSpec {
    pub map: String,
    pub testgen: Option<Vec<String>>,
    pub files: Option<String>,
    pub limits: Limits,
    pub group: String,
}

/// Where a test comes from.
#[derive(Clone, Debug)]
pub enum TestGenSpec {
    Generate { testgen: String, args: Vec<String> },
    File { path: String },
}

/// One test of the problem.
#[derive(Debug)]
pub struct TestSpec {
    pub gen: TestGenSpec,
    pub limits: Limits,
    pub group: String,
}

/// Why a block of tests is rejected.
#[derive(Debug, Clone)]
pub enum TestsSpecError {
    /// exactly one of 'files' and 'testgen' must be specified
    FilesAndTestgen,
    /// failed to parse a chunk of the mapping
    Mapping { chunk: String, reason: ChunkError },
    /// mapping is not sorted
    NotSorted,
    /// formatting a file name failed
    Format(String),
}

/// `t` is a test read from file `path`.
pub open spec fn file_test(t: TestSpec, path: Seq<char>, limits: Limits, group: Seq<char>) -> bool {
    &&& t.gen matches TestGenSpec::File { path: p } && p@ == path
    &&& t.limits == limits
    &&& t.group@ == group
}

/// `t` is a test made by running command `cmd`.
pub open spec fn gen_test(t: TestSpec, cmd: Seq<String>, limits: Limits, group: Seq<char>) -> bool {
    &&& t.gen matches TestGenSpec::Generate { testgen, args } && {
        &&& testgen@ == cmd[0]@
        &&& args@.len() + 1 == cmd.len()
        &&& forall|j: int| 0 <= j < args@.len() ==> (#[trigger] args@[j])@ == cmd[j + 1]@
    }
    &&& t.limits == limits
    &&& t.group@ == group
}

/// The ids of block `b`, if it is accepted, given the formatted file
/// names `names` of its ids.
pub open spec fn block_ids(b: RawTestsSpec, names: Seq<Result<String, String>>) -> Option<Seq<u32>> {
    if b.files is Some && b.testgen is Some {
        None
    } else {
        match spec_mapping(b.map@) {
            Err(_) => None,
            Ok(ids) => if !non_decreasing(ids) {
                None
            } else if b.files is Some {
                if first_format_error(names) is Some {
                    None
                } else {
                    Some(ids)
                }
            } else if b.testgen is Some {
                Some(ids)
            } else {
                Some(Seq::empty())
            },
        }
    }
}

/// `e` is the error that block `b` is rejected with.
pub open spec fn block_error(b: RawTestsSpec, names: Seq<Result<String, String>>, e: TestsSpecError) -> bool {
    if b.files is Some && b.testgen is Some {
        e is FilesAndTestgen
    } else {
        match spec_mapping(b.map@) {
            Err((k, reason)) => e matches TestsSpecError::Mapping { chunk, reason: r } && chunk@ == split_seq(
                b.map@,
                commas(),
            )[k] && r == reason,
            Ok(ids) => if !non_decreasing(ids) {
                e is NotSorted
            } else {
                match first_format_error(names) {
                    Some(k) => e matches TestsSpecError::Format(m) && names[k] matches Err(m2) && m@ == m2@,
                    None => false,
                }
            },
        }
    }
}

/// `t` is the `k`-th test of accepted block `b`.
pub open spec fn block_test(b: RawTestsSpec, names: Seq<Result<String, String>>, k: int, t: TestSpec) -> bool {
    match b.files {
        Some(_) => names[k] matches Ok(path) && file_test(t, path@, b.limits, b.group@),
        None => match b.testgen {
            Some(cmd) => gen_test(t, cmd@, b.limits, b.group@),
            None => false,
        },
    }
}

/// A copy of `s`.
fn copy_string(s: &String) -> (r: String)
    ensures
        r@ == s@,
{
    s.clone()
}

/// A copy of a list of strings.
fn copy_strings(v: &Vec<String>, from: usize) -> (r: Vec<String>)
    requires
        from <= v@.len(),
    ensures
        r@.len() + from == v@.len(),
        forall|j: int| 0 <= j < r@.len() ==> (#[trigger] r@[j])@ == v@[j + from]@,
{
    let mut r: Vec<String> = Vec::new();
    let mut i: usize = from;
    while i < v.len()
        invariant
            from <= i <= v@.len(),
            r@.len() + from == i,
            forall|j: int| 0 <= j < r@.len() ==> (#[trigger] r@[j])@ == v@[j + from]@,
        decreases v@.len() - i,
    {
        r.push(copy_string(&v[i]));
        i = i + 1;
    }
    r
}

impl TestSpec {
    /// A copy of this test.
    pub fn duplicate(&self) -> (r: TestSpec)
        ensures
            r.limits == self.limits,
            r.group@ == self.group@,
            forall|p: Seq<char>, l: Limits, g: Seq<char>| #[trigger] file_test(*self, p, l, g) ==> file_test(r, p, l, g),
            forall|c: Seq<String>, l: Limits, g: Seq<char>| #[trigger] gen_test(*self, c, l, g) ==> gen_test(r, c, l, g),
    {
        let gen = match &self.gen {
            TestGenSpec::Generate { testgen, args } => TestGenSpec::Generate {
                testgen: copy_string(testgen),
                args: copy_strings(args, 0),
            },
            TestGenSpec::File { path } => TestGenSpec::File { path: copy_string(path) },
        };
        TestSpec { gen, limits: self.limits, group: copy_string(&self.group) }
    }
}

impl RawTestsSpec {
    /// Parses one chunk of the mapping.
    pub fn parse_mapping_chunk(&self, ch: &str) -> (r: Result<Vec<u32>, ChunkError>)
        ensures
            match spec_chunk(ch@) {
                Ok(ids) => r matches Ok(v) && v@ == ids,
                Err(e) => r == Err::<Vec<u32>, ChunkError>(e),
            },
    {
        let cs = chars_of(ch);
        parse_mapping_chunk(&cs)
    }

    /// The test ids of the mapping, which must not decrease.
    pub fn parse_mapping(&self) -> (r: Result<Vec<u32>, TestsSpecError>)
        ensures
            match spec_mapping(self.map@) {
                Err((k, reason)) => r matches Err(TestsSpecError::Mapping { chunk, reason: r2 }) && chunk@ == split_seq(
                    self.map@,
                    commas(),
                )[k] && r2 == reason,
                Ok(ids) => if non_decreasing(ids) {
                    r matches Ok(v) && v@ == ids
                } else {
                    r matches Err(TestsSpecError::NotSorted)
                },
            },
    {
        let cs = chars_of(self.map.as_str());
        let sep: Vec<char> = vec![','];
        proof {
            assert(sep@ =~= commas());
        }
        let chunks = split_chars(&cs, &sep);
        let ghost cv = chunks@.map_values(|v: Vec<char>| v@);
        let mut out: Vec<u32> = Vec::new();
        let n = chunks.len();
        let mut i: usize = 0;
        proof {
            assert(cv.take(0) =~= Seq::<Seq<char>>::empty());
        }
        while i < n
            invariant
                n == chunks@.len(),
                cv == chunks@.map_values(|v: Vec<char>| v@),
                cv == split_seq(self.map@, commas()),
                0 <= i <= n,
                mapping_of_chunks(cv.take(i as int)) == Ok::<Seq<u32>, (int, ChunkError)>(out@),
            decreases n - i,
        {
            proof {
                assert(cv.take(i + 1).drop_last() =~= cv.take(i as int));
                assert(cv.take(i + 1).last() == chunks@[i as int]@);
            }
            match parse_mapping_chunk(&chunks[i]) {
                Ok(ids) => {
                    let ghost o0 = out@;
                    let mut k: usize = 0;
                    while k < ids.len()
                        invariant
                            0 <= k <= ids@.len(),
                            out@ == o0 + ids@.take(k as int),
                        decreases ids@.len() - k,
                    {
                        out.push(ids[k]);
                        proof {
                            assert(ids@.take(k + 1) =~= ids@.take(k as int).push(ids@[k as int]));
                            assert(o0 + ids@.take(k + 1) =~= (o0 + ids@.take(k as int)).push(ids@[k as int]));
                        }
                        k = k + 1;
                    }
                    proof {
                        assert(ids@.take(ids@.len() as int) =~= ids@);
                    }
                },
                Err(reason) => {
                    proof {
                        lemma_mapping_err(cv, (i + 1) as int);
                    }
                    return Err(TestsSpecError::Mapping { chunk: string_of(&chunks[i]), reason });
                },
            }
            i = i + 1;
        }
        proof {
            assert(cv.take(n as int) =~= cv);
        }
        let m = out.len();
        let mut j: usize = 1;
        while j < m
            invariant
                m == out@.len(),
                spec_mapping(self.map@) == Ok::<Seq<u32>, (int, ChunkError)>(out@),
                1 <= j || m == 0,
                forall|a: int, b: int| 0 <= a < b < j && b < m ==> out@[a] <= out@[b],
            decreases m - j,
        {
            if out[j - 1] > out[j] {
                proof {
                    assert(!(out@[j - 1] <= out@[j as int]));
                    assert(!non_decreasing(out@));
                }
                return Err(TestsSpecError::NotSorted);
            }
            proof {
                assert forall|a: int, b: int| 0 <= a < b < j + 1 && b < m implies out@[a] <= out@[b] by {
                    if b == j && a < j - 1 {
                        assert(out@[a] <= out@[j - 1]);
                    }
                }
            }
            j = j + 1;
        }
        Ok(out)
    }
}

/// An error of a prefix of chunks is the error of all of them.
proof fn lemma_mapping_err(chunks: Seq<Seq<char>>, k: int)
    requires
        0 <= k <= chunks.len(),
        mapping_of_chunks(chunks.take(k)) is Err,
    ensures
        mapping_of_chunks(chunks) == mapping_of_chunks(chunks.take(k)),
    decreases chunks.len() - k,
{
    if k < chunks.len() {
        assert(chunks.take(k + 1).drop_last() =~= chunks.take(k));
        lemma_mapping_err(chunks, k + 1);
    } else {
        assert(chunks.take(k) =~= chunks);
    }
}

/// The first formatting error is the first name that is an error.
proof fn lemma_first_format_error(names: Seq<Result<String, String>>, k: int)
    requires
        0 <= k <= names.len(),
        forall|j: int| 0 <= j < k ==> names[j] is Ok,
    ensures
        k < names.len() && names[k] is Err ==> first_format_error(names) == Some(k),
        k == names.len() ==> first_format_error(names) is None,
    decreases names.len(),
{
    if names.len() > 0 {
        let p = names.drop_last();
        if k < names.len() {
            if k < p.len() {
                assert forall|j: int| 0 <= j < k implies p[j] is Ok by {
                    assert(p[j] == names[j]);
                }
                lemma_first_format_error(p, k);
                if names[k] is Err {
                    assert(p[k] == names[k]);
                }
            } else {
                assert forall|j: int| 0 <= j < p.len() implies p[j] is Ok by {
                    assert(p[j] == names[j]);
                }
                lemma_first_format_error(p, p.len() as int);
            }
        } else {
            assert forall|j: int| 0 <= j < p.len() implies p[j] is Ok by {
                assert(p[j] == names[j]);
            }
            lemma_first_format_error(p, p.len() as int);
        }
    }
}

impl RawTestsSpec {
    /// Expands the block into its tests, each with its id. `file_names`
    /// holds the file name of each id of the mapping, in order, formatted
    /// from the `files` template (or the formatting error).
    pub fn postprocess(&self, file_names: &Vec<Result<String, String>>) -> (r: Result<Vec<(u32, TestSpec)>, TestsSpecError>)
        requires
            self.files is Some ==> (spec_mapping(self.map@) matches Ok(ids) ==> file_names@.len() == ids.len()),
            block_ids(*self, file_names@) is Some ==> (self.testgen matches Some(cmd) ==> cmd@.len() > 0),
        ensures
            match block_ids(*self, file_names@) {
                None => r matches Err(e) && block_error(*self, file_names@, e),
                Some(ids) => r matches Ok(out) && out@.len() == ids.len() && forall|k: int|
                    0 <= k < ids.len() ==> (#[trigger] out@[k]).0 == ids[k] && block_test(
                        *self,
                        file_names@,
                        k,
                        out@[k].1,
                    ),
            },
    {
        if self.files.is_some() && self.testgen.is_some() {
            return Err(TestsSpecError::FilesAndTestgen);
        }
        let idxs = match self.parse_mapping() {
            Ok(v) => v,
            Err(e) => {
                return Err(e);
            },
        };
        let mut out: Vec<(u32, TestSpec)> = Vec::new();
        let n = idxs.len();
        match &self.files {
            Some(_) => {
                let mut k: usize = 0;
                while k < n
                    invariant
                        n == idxs@.len(),
                        n == file_names@.len(),
                        self.files is Some,
                        self.testgen is None,
                        spec_mapping(self.map@) == Ok::<Seq<u32>, (int, ChunkError)>(idxs@),
                        non_decreasing(idxs@),
                        0 <= k <= n,
                        out@.len() == k,
                        forall|j: int| 0 <= j < k ==> file_names@[j] is Ok,
                        forall|j: int|
                            0 <= j < k ==> (#[trigger] out@[j]).0 == idxs@[j] && block_test(*self, file_names@, j, out@[j].1),
                    decreases n - k,
                {
                    match &file_names[k] {
                        Ok(name) => {
                            let t = TestSpec {
                                gen: TestGenSpec::File { path: copy_string(name) },
                                limits: self.limits,
                                group: copy_string(&self.group),
                            };
                            out.push((idxs[k], t));
                        },
                        Err(m) => {
                            proof {
                                lemma_first_format_error(file_names@, k as int);
                            }
                            return Err(TestsSpecError::Format(copy_string(m)));
                        },
                    }
                    k = k + 1;
                }
                proof {
                    lemma_first_format_error(file_names@, n as int);
                }
            },
            None => {},
        }
        match &self.testgen {
            Some(cmd) => {
                let mut k: usize = 0;
                while k < n
                    invariant
                        n == idxs@.len(),
                        self.files is None,
                        self.testgen == Some(*cmd),
                        cmd@.len() > 0,
                        0 <= k <= n,
                        out@.len() == k,
                        forall|j: int|
                            0 <= j < k ==> (#[trigger] out@[j]).0 == idxs@[j] && block_test(*self, file_names@, j, out@[j].1),
                    decreases n - k,
                {
                    let t = TestSpec {
                        gen: TestGenSpec::Generate { testgen: copy_string(&cmd[0]), args: copy_strings(cmd, 1) },
                        limits: self.limits,
                        group: copy_string(&self.group),
                    };
                    out.push((idxs[k], t));
                    k = k + 1;
                }
            },
            None => {},
        }
        Ok(out)
    }
}

/// The problem manifest as its author writes it.
#[derive(Debug, Clone)]
pub struct RawProblem {
    pub title: String,
    pub name: String,
    pub random_seed: Option<String>,
    pub primary_solution: Option<String>,
    pub check_type: String,
    pub valuer: String,
    pub custom_check: Option<CustomCheck>,
    pub builtin_check: Option<BuiltinCheck>,
    pub tests: Vec<RawTestsSpec>,
    pub check_options: Option<CheckOptions>,
    pub valuer_cfg: Option<String>,
    pub limits: Limits,
}

impl RawProblem {
    /// Nothing is filled in: empty strings, no options, no tests, and the
    /// default limits.
    pub open spec fn is_blank(self) -> bool {
        &&& self.title@.len() == 0
        &&& self.name@.len() == 0
        &&& self.random_seed is None
        &&& self.primary_solution is None
        &&& self.check_type@.len() == 0
        &&& self.valuer@.len() == 0
        &&& self.custom_check is None
        &&& self.builtin_check is None
        &&& self.tests@.len() == 0
        &&& self.check_options is None
        &&& self.valuer_cfg is None
        &&& self.limits == default_limits()
    }
}

impl Default for RawProblem {
    fn default() -> (r: RawProblem)
        ensures
            r.is_blank(),
    {
        RawProblem {
            title: String::new(),
            name: String::new(),
            random_seed: None,
            primary_solution: None,
            check_type: String::new(),
            valuer: String::new(),
            custom_check: None,
            builtin_check: None,
            tests: Vec::new(),
            check_options: None,
            valuer_cfg: None,
            limits: Limits::default(),
        }
    }
}

/// How answers are checked.
#[derive(Debug)]
pub enum Check {
    Custom(CustomCheck),
    Builtin(BuiltinCheck),
}

/// The checked problem description.
#[derive(Debug)]
pub struct Problem {
    pub title: String,
    pub name: String,
    pub primary_solution: Option<String>,
    pub check: Check,
    pub tests: Vec<TestSpec>,
    pub random_seed: String,
    pub check_options: CheckOptions,
    pub valuer: String,
    pub valuer_cfg: Option<String>,
    pub limits: Limits,
}

/// Why a manifest is rejected.
#[derive(Debug, Clone)]
pub enum ProblemError {
    /// bad test description block
    TestBlock(TestsSpecError),
    /// No tests specified
    NoTests,
    /// test is specified more than once
    Duplicate(u32),
    /// test is not specified
    Missing(usize),
    /// random-seed must have length 16
    SeedLength,
    /// random-seed is not hex
    SeedNotHex,
    /// check-type=custom requires [custom-check] section
    CustomCheckMissing,
    /// check-type=builtin requires [builtin-check] section
    BuiltinCheckMissing,
    /// unknown check type
    UnknownCheckType(String),
}

/// Position of the first rejected block among the first `n`, if any.
pub open spec fn first_bad_block(blocks: Seq<RawTestsSpec>, names: Seq<Vec<Result<String, String>>>, n: int) -> Option<int>
    decreases n,
{
    if n <= 0 {
        None
    } else {
        match first_bad_block(blocks, names, n - 1) {
            Some(b) => Some(b),
            None => if block_ids(blocks[n - 1], names[n - 1]@) is None {
                Some(n - 1)
            } else {
                None
            },
        }
    }
}

/// Ids of the tests of the first `n` blocks, in block order.
pub open spec fn all_ids(blocks: Seq<RawTestsSpec>, names: Seq<Vec<Result<String, String>>>, n: int) -> Seq<u32>
    decreases n,
{
    if n <= 0 {
        Seq::empty()
    } else {
        all_ids(blocks, names, n - 1) + match block_ids(blocks[n - 1], names[n - 1]@) {
            Some(ids) => ids,
            None => Seq::empty(),
        }
    }
}

/// Id `x` occurs twice in `ids`.
pub open spec fn is_dup(ids: Seq<u32>, x: u32) -> bool {
    exists|i: int, j: int| 0 <= i < j < ids.len() && ids[i] == x && ids[j] == x
}

/// Id `m` occurs in `ids`.
pub open spec fn has_id(ids: Seq<u32>, m: int) -> bool {
    exists|p: int| 0 <= p < ids.len() && ids[p] as int == m
}

/// The tests of the blocks are numbered exactly from 1 up.
pub open spec fn tests_ok(blocks: Seq<RawTestsSpec>, names: Seq<Vec<Result<String, String>>>) -> bool {
    let ids = all_ids(blocks, names, blocks.len() as int);
    &&& first_bad_block(blocks, names, blocks.len() as int) is None
    &&& ids.len() > 0
    &&& forall|x: u32| !is_dup(ids, x)
    &&& !has_id(ids, 0)
    &&& forall|m: int| 1 <= m <= ids.len() ==> has_id(ids, m)
}

/// `e` is the error the tests of the blocks are rejected with: the first
/// rejected block's; no tests; the smallest id given twice; or the first
/// id missing.
pub open spec fn tests_error(blocks: Seq<RawTestsSpec>, names: Seq<Vec<Result<String, String>>>, e: ProblemError) -> bool {
    let ids = all_ids(blocks, names, blocks.len() as int);
    match first_bad_block(blocks, names, blocks.len() as int) {
        Some(b) => e matches ProblemError::TestBlock(te) && block_error(blocks[b], names[b]@, te),
        None => if ids.len() == 0 {
            e is NoTests
        } else if exists|x: u32| is_dup(ids, x) {
            e matches ProblemError::Duplicate(d) && is_dup(ids, d) && forall|y: u32| y < d ==> !is_dup(ids, y)
        } else if has_id(ids, 0) {
            e matches ProblemError::Missing(m) && m == 1
        } else {
            e matches ProblemError::Missing(m) && 1 <= m <= ids.len() && !has_id(ids, m as int) && forall|m2: int|
                1 <= m2 < m ==> has_id(ids, m2)
        },
    }
}

/// `t` is the test with id `id` of one of the blocks.
pub open spec fn test_with_id(blocks: Seq<RawTestsSpec>, names: Seq<Vec<Result<String, String>>>, id: int, t: TestSpec) -> bool {
    exists|b: int, k: int|
        #![trigger block_test(blocks[b], names[b]@, k, t)]
        0 <= b < blocks.len() && (block_ids(blocks[b], names[b]@) matches Some(bi) && 0 <= k < bi.len() && bi[k]
            as int == id) && block_test(blocks[b], names[b]@, k, t)
}

/// `out` holds the tests of the blocks in id order: its `m`-th test is the
/// test with id `m + 1`.
pub open spec fn tests_output(blocks: Seq<RawTestsSpec>, names: Seq<Vec<Result<String, String>>>, out: Seq<TestSpec>) -> bool {
    &&& out.len() == all_ids(blocks, names, blocks.len() as int).len()
    &&& forall|m: int| 0 <= m < out.len() ==> test_with_id(blocks, names, m + 1, #[trigger] out[m])
}

/// What `RawTestsSpec::postprocess` needs of block `b` and its file names.
pub open spec fn block_pre(b: RawTestsSpec, names: Seq<Result<String, String>>) -> bool {
    &&& b.files is Some ==> (spec_mapping(b.map@) matches Ok(ids) ==> names.len() == ids.len())
    &&& block_ids(b, names) is Some ==> (b.testgen matches Some(cmd) ==> cmd@.len() > 0)
}

/// A rejected block among the first `n` is the first rejected one of all.
proof fn lemma_first_bad_block(blocks: Seq<RawTestsSpec>, names: Seq<Vec<Result<String, String>>>, n: int, m: int)
    requires
        0 <= n <= m,
        first_bad_block(blocks, names, n) is Some,
    ensures
        first_bad_block(blocks, names, m) == first_bad_block(blocks, names, n),
    decreases m - n,
{
    if n < m {
        lemma_first_bad_block(blocks, names, n, m - 1);
    }
}

/// Whether some entry of `ids` other than the one at `p` equals it.
fn dup_at(ids: &Vec<u32>, p: usize) -> (r: bool)
    requires
        p < ids@.len(),
    ensures
        r == exists|q: int| 0 <= q < ids@.len() && q != p && ids@[q] == ids@[p as int],
{
    let n = ids.len();
    let mut q: usize = 0;
    while q < n
        invariant
            n == ids@.len(),
            p < n,
            0 <= q <= n,
            forall|j: int| 0 <= j < q && j != p ==> ids@[j] != ids@[p as int],
        decreases n - q,
    {
        if q != p && ids[q] == ids[p] {
            return true;
        }
        q = q + 1;
    }
    false
}

/// Position of the first entry of `ids` equal to `m`, or `ids.len()`.
fn find_id(ids: &Vec<u32>, m: usize) -> (r: usize)
    ensures
        r <= ids@.len(),
        r < ids@.len() ==> ids@[r as int] as int == m,
        forall|j: int| 0 <= j < r ==> ids@[j] as int != m,
{
    let n = ids.len();
    let mut q: usize = 0;
    while q < n
        invariant
            n == ids@.len(),
            0 <= q <= n,
            forall|j: int| 0 <= j < q ==> ids@[j] as int != m,
        decreases n - q,
    {
        if ids[q] as usize == m {
            return q;
        }
        q = q + 1;
    }
    n
}

/// The smallest id that occurs twice, if any.
fn smallest_dup(ids: &Vec<u32>) -> (r: Option<u32>)
    ensures
        r matches Some(d) ==> is_dup(ids@, d) && forall|y: u32| y < d ==> !is_dup(ids@, y),
        r is None ==> forall|x: u32| !is_dup(ids@, x),
{
    let n = ids.len();
    let mut best: Option<u32> = None;
    let mut p: usize = 0;
    while p < n
        invariant
            n == ids@.len(),
            0 <= p <= n,
            best matches Some(d) ==> is_dup(ids@, d),
            forall|p2: int, q: int|
                0 <= p2 < p && 0 <= q < n && q != p2 && ids@[q] == ids@[p2] ==> (best matches Some(d) && d <= ids@[p2]),
        decreases n - p,
    {
        if dup_at(ids, p) {
            proof {
                let q = choose|q: int| 0 <= q < ids@.len() && q != p && ids@[q] == ids@[p as int];
                if q < p {
                    assert(ids@[q] == ids@[p as int]);
                    assert(is_dup(ids@, ids@[p as int]));
                } else {
                    assert(is_dup(ids@, ids@[p as int]));
                }
            }
            let better = match best {
                Some(d) => ids[p] < d,
                None => true,
            };
            if better {
                best = Some(ids[p]);
            }
        }
        p = p + 1;
    }
    proof {
        assert forall|y: u32| (best matches Some(d) && y < d) || best is None implies !is_dup(ids@, y) by {
            if is_dup(ids@, y) {
                let (i, j) = choose|i: int, j: int| 0 <= i < j < ids@.len() && ids@[i] == y && ids@[j] == y;
                assert(ids@[j] == ids@[i]);
            }
        }
    }
    best
}

impl RawProblem {
    /// Expands every block of tests and checks that the tests are numbered
    /// exactly from 1 up; returns them in id order. `file_names[b]` holds
    /// the formatted file names of block `b`, as for
    /// `RawTestsSpec::postprocess`.
    pub fn process_tests(&self, file_names: &Vec<Vec<Result<String, String>>>) -> (r: Result<Vec<TestSpec>, ProblemError>)
        requires
            file_names@.len() == self.tests@.len(),
            forall|b: int|
                0 <= b < self.tests@.len() && first_bad_block(self.tests@, file_names@, b) is None ==> block_pre(
                    #[trigger] self.tests@[b],
                    file_names@[b]@,
                ),
        ensures
            tests_ok(self.tests@, file_names@) ==> (r matches Ok(out) && tests_output(self.tests@, file_names@, out@)),
            !tests_ok(self.tests@, file_names@) ==> (r matches Err(e) && tests_error(self.tests@, file_names@, e)),
    {
        let ghost bs = self.tests@;
        let ghost ns = file_names@;
        let nb = self.tests.len();
        let mut all: Vec<(u32, TestSpec)> = Vec::new();
        let ghost mut origin: Seq<(int, int)> = Seq::empty();
        let mut b: usize = 0;
        while b < nb
            invariant
                bs == self.tests@,
                ns == file_names@,
                nb == bs.len(),
                ns.len() == nb,
                0 <= b <= nb,
                forall|bb: int|
                    0 <= bb < bs.len() && first_bad_block(bs, ns, bb) is None ==> block_pre(#[trigger] bs[bb], ns[bb]@),
                first_bad_block(bs, ns, b as int) is None,
                all@.map_values(|e: (u32, TestSpec)| e.0) == all_ids(bs, ns, b as int),
                origin.len() == all@.len(),
                forall|p: int|
                    0 <= p < all@.len() ==> {
                        let bb = (#[trigger] origin[p]).0;
                        let k = origin[p].1;
                        &&& 0 <= bb < b
                        &&& block_ids(bs[bb], ns[bb]@) matches Some(bi) && 0 <= k < bi.len() && bi[k] == all@[p].0
                        &&& block_test(bs[bb], ns[bb]@, k, all@[p].1)
                    },
            decreases nb - b,
        {
            proof {
                assert(block_pre(bs[b as int], ns[b as int]@));
            }
            match self.tests[b].postprocess(&file_names[b]) {
                Err(e) => {
                    proof {
                        assert(first_bad_block(bs, ns, b + 1) == Some(b as int));
                        lemma_first_bad_block(bs, ns, b + 1, nb as int);
                    }
                    return Err(ProblemError::TestBlock(e));
                },
                Ok(v) => {
                    let ghost a0 = all@;
                    let ghost o0 = origin;
                    let ghost vv = v@;
                    let ghost bi = block_ids(bs[b as int], ns[b as int]@)->Some_0;
                    let mut v = v;
                    all.append(&mut v);
                    proof {
                        origin = o0 + Seq::new(vv.len(), |k: int| (b as int, k));
                        assert(all@ == a0 + vv);
                        assert(all@.map_values(|e: (u32, TestSpec)| e.0) =~= a0.map_values(|e: (u32, TestSpec)| e.0) + bi);
                        assert forall|p: int| 0 <= p < all@.len() implies {
                            let bb = (#[trigger] origin[p]).0;
                            let k = origin[p].1;
                            &&& 0 <= bb < b + 1
                            &&& block_ids(bs[bb], ns[bb]@) matches Some(bi2) && 0 <= k < bi2.len() && bi2[k] == all@[p].0
                            &&& block_test(bs[bb], ns[bb]@, k, all@[p].1)
                        } by {
                            if p < a0.len() {
                                assert(origin[p] == o0[p]);
                                assert(all@[p] == a0[p]);
                            } else {
                                assert(origin[p] == (b as int, p - a0.len()));
                                assert(all@[p] == vv[p - a0.len()]);
                            }
                        }
                    }
                },
            }
            b = b + 1;
        }
        let ghost ids_spec = all_ids(bs, ns, nb as int);
        let n = all.len();
        let mut ids: Vec<u32> = Vec::new();
        let mut i: usize = 0;
        while i < n
            invariant
                n == all@.len(),
                0 <= i <= n,
                ids@ == all@.map_values(|e: (u32, TestSpec)| e.0).take(i as int),
            decreases n - i,
        {
            ids.push(all[i].0);
            proof {
                assert(all@.map_values(|e: (u32, TestSpec)| e.0).take(i + 1) =~= all@.map_values(
                    |e: (u32, TestSpec)| e.0,
                ).take(i as int).push(all@[i as int].0));
            }
            i = i + 1;
        }
        proof {
            assert(all@.map_values(|e: (u32, TestSpec)| e.0).take(n as int) =~= all@.map_values(|e: (u32, TestSpec)| e.0));
            assert(ids@ == ids_spec);
        }
        if n == 0 {
            return Err(ProblemError::NoTests);
        }
        match smallest_dup(&ids) {
            Some(d) => {
                return Err(ProblemError::Duplicate(d));
            },
            None => {},
        }
        let z = find_id(&ids, 0);
        if z < n {
            proof {
                assert(has_id(ids@, 0));
            }
            return Err(ProblemError::Missing(1));
        }
        proof {
            assert(!has_id(ids@, 0));
        }
        let mut i: usize = 0;
        while i < n
            invariant
                n == ids@.len(),
                bs == self.tests@,
                ns == file_names@,
                nb == bs.len(),
                ids@ == all_ids(bs, ns, nb as int),
                first_bad_block(bs, ns, nb as int) is None,
                forall|x: u32| !is_dup(ids@, x),
                !has_id(ids@, 0),
                0 <= i <= n,
                forall|m2: int| 1 <= m2 <= i ==> has_id(ids@, m2),
            decreases n - i,
        {
            let m = i + 1;
            let p = find_id(&ids, m);
            if p == n {
                proof {
                    assert(!has_id(ids@, m as int));
                }
                return Err(ProblemError::Missing(m));
            }
            proof {
                assert(has_id(ids@, m as int));
            }
            i = i + 1;
        }
        let mut out: Vec<TestSpec> = Vec::new();
        let mut i: usize = 0;
        while i < n
            invariant
                n == ids@.len(),
                n == all@.len(),
                ids@ == all@.map_values(|e: (u32, TestSpec)| e.0),
                bs == self.tests@,
                ns == file_names@,
                0 <= i <= n,
                out@.len() == i,
                forall|m2: int| 1 <= m2 <= n ==> has_id(ids@, m2),
                origin.len() == all@.len(),
                forall|p: int|
                    0 <= p < all@.len() ==> {
                        let bb = (#[trigger] origin[p]).0;
                        let k = origin[p].1;
                        &&& 0 <= bb < nb
                        &&& block_ids(bs[bb], ns[bb]@) matches Some(bi) && 0 <= k < bi.len() && bi[k] == all@[p].0
                        &&& block_test(bs[bb], ns[bb]@, k, all@[p].1)
                    },
                nb == bs.len(),
                forall|j: int| 0 <= j < out@.len() ==> test_with_id(bs, ns, j + 1, #[trigger] out@[j]),
            decreases n - i,
        {
            let m = i + 1;
            let p = find_id(&ids, m);
            proof {
                assert(has_id(ids@, m as int));
                let w = choose|w: int| 0 <= w < ids@.len() && ids@[w] as int == m;
                assert(p <= w);
                assert(p < n);
            }
            let t = all[p].1.duplicate();
            proof {
                let bb = origin[p as int].0;
                let k = origin[p as int].1;
                assert(block_test(bs[bb], ns[bb]@, k, all@[p as int].1));
                assert(all@[p as int].0 as int == m);
                assert(block_test(bs[bb], ns[bb]@, k, t));
                assert(test_with_id(bs, ns, m as int, t));
            }
            out.push(t);
            proof {
                assert forall|j: int| 0 <= j < out@.len() implies test_with_id(bs, ns, j + 1, #[trigger] out@[j]) by {
                    if j < out@.len() - 1 {
                    }
                }
            }
            i = i + 1;
        }
        Ok(out)
    }
}

/// An ASCII hexadecimal digit.
pub open spec fn is_hex(c: char) -> bool {
    ('0' <= c && c <= '9') || ('a' <= c && c <= 'f') || ('A' <= c && c <= 'F')
}

/// A hexadecimal digit in lower case.
pub open spec fn hex_lower(c: char) -> char {
    if 'A' <= c && c <= 'F' {
        ((c as u8) + 32) as char
    } else {
        c
    }
}

/// The error a random seed is rejected with, if any: it must be 16 bytes
/// of hexadecimal digits.
pub open spec fn seed_error(seed: Option<String>) -> Option<ProblemError> {
    match seed {
        Some(s) => if vstd::utf8::encode_utf8(s@).len() != 16 {
            Some(ProblemError::SeedLength)
        } else if !(forall|i: int| 0 <= i < s@.len() ==> is_hex(#[trigger] s@[i])) {
            Some(ProblemError::SeedNotHex)
        } else {
            None
        },
        None => None,
    }
}

/// The seed used: the given one in lower case, or a fixed one.
pub open spec fn seed_of(seed: Option<String>) -> Seq<char> {
    match seed {
        Some(s) => s@.map_values(|c: char| hex_lower(c)),
        None => "6a2c1750a93b8184"@,
    }
}

/// `e` is the error a check section of type `t` is rejected with, if it is.
pub open spec fn check_error(t: Seq<char>, custom: Option<CustomCheck>, builtin: Option<BuiltinCheck>, e: ProblemError) -> bool {
    if t == "custom"@ {
        custom is None && e is CustomCheckMissing
    } else if t == "builtin"@ {
        builtin is None && e is BuiltinCheckMissing
    } else {
        e matches ProblemError::UnknownCheckType(ty) && ty@ == t
    }
}

/// A check section of type `t` is accepted as `c`.
pub open spec fn check_of(t: Seq<char>, custom: Option<CustomCheck>, builtin: Option<BuiltinCheck>, c: Check) -> bool {
    if t == "custom"@ {
        custom matches Some(cc) && c == Check::Custom(cc)
    } else if t == "builtin"@ {
        builtin matches Some(bc) && c == Check::Builtin(bc)
    } else {
        false
    }
}

/// Whether a check section of type `t` is accepted.
pub open spec fn check_ok(t: Seq<char>, custom: Option<CustomCheck>, builtin: Option<BuiltinCheck>) -> bool {
    (t == "custom"@ && custom is Some) || (t == "builtin"@ && builtin is Some)
}

/// The check of a manifest: its type names the section that must be there.
fn make_check(check_type: String, custom: Option<CustomCheck>, builtin: Option<BuiltinCheck>) -> (r: Result<Check, ProblemError>)
    ensures
        check_ok(check_type@, custom, builtin) ==> (r matches Ok(c) && check_of(check_type@, custom, builtin, c)),
        !check_ok(check_type@, custom, builtin) ==> (r matches Err(e) && check_error(check_type@, custom, builtin, e)),
{
    proof {
        reveal_strlit("custom");
        reveal_strlit("builtin");
        assert("custom"@[0] != "builtin"@[0]);
        assert("custom"@ != "builtin"@);
    }
    if crate::text::str_eq(check_type.as_str(), "custom") {
        match custom {
            Some(cs) => Ok(Check::Custom(cs)),
            None => Err(ProblemError::CustomCheckMissing),
        }
    } else if crate::text::str_eq(check_type.as_str(), "builtin") {
        match builtin {
            Some(bc) => Ok(Check::Builtin(bc)),
            None => Err(ProblemError::BuiltinCheckMissing),
        }
    } else {
        Err(ProblemError::UnknownCheckType(check_type))
    }
}

/// Whether `s` is 16 bytes of hexadecimal digits; returns it in lower case.
fn check_seed(s: &String) -> (r: Result<String, ProblemError>)
    ensures
        match seed_error(Some(*s)) {
            Some(e) => r matches Err(e2) && e2 == e,
            None => r matches Ok(l) && l@ == seed_of(Some(*s)),
        },
{
    let st = s.as_str();
    let blen = st.as_bytes().len();
    proof {
        assert(st@ == s@);
        assert(blen == st.spec_bytes().len());
    }
    if blen != 16 {
        return Err(ProblemError::SeedLength);
    }
    let cs = chars_of(s.as_str());
    let n = cs.len();
    let mut out: Vec<char> = Vec::new();
    let mut i: usize = 0;
    while i < n
        invariant
            n == cs@.len(),
            cs@ == s@,
            vstd::utf8::encode_utf8(s@).len() == 16,
            0 <= i <= n,
            forall|j: int| 0 <= j < i ==> is_hex(#[trigger] cs@[j]),
            out@ == cs@.take(i as int).map_values(|c: char| hex_lower(c)),
        decreases n - i,
    {
        let c = cs[i];
        let hex = ('0' <= c && c <= '9') || ('a' <= c && c <= 'f') || ('A' <= c && c <= 'F');
        if !hex {
            proof {
                assert(!is_hex(s@[i as int]));
            }
            return Err(ProblemError::SeedNotHex);
        }
        let l = if 'A' <= c && c <= 'F' {
            ((c as u8) + 32) as char
        } else {
            c
        };
        out.push(l);
        proof {
            assert(cs@.take(i + 1).map_values(|c: char| hex_lower(c)) =~= cs@.take(i as int).map_values(
                |c: char| hex_lower(c),
            ).push(hex_lower(c)));
        }
        i = i + 1;
    }
    proof {
        assert(cs@.take(n as int) =~= cs@);
    }
    Ok(string_of(&out))
}

impl RawProblem {
    /// Checks the manifest and turns it into a problem description, with
    /// warnings. `file_names` is as for `process_tests`.
    pub fn postprocess(self, file_names: &Vec<Vec<Result<String, String>>>) -> (r: Result<(Problem, Vec<String>), ProblemError>)
        requires
            file_names@.len() == self.tests@.len(),
            forall|b: int|
                0 <= b < self.tests@.len() && first_bad_block(self.tests@, file_names@, b) is None ==> block_pre(
                    #[trigger] self.tests@[b],
                    file_names@[b]@,
                ),
        ensures
            !tests_ok(self.tests@, file_names@) ==> (r matches Err(e) && tests_error(self.tests@, file_names@, e)),
            tests_ok(self.tests@, file_names@) && seed_error(self.random_seed) is Some ==> (r matches Err(e) && Some(e)
                == seed_error(self.random_seed)),
            tests_ok(self.tests@, file_names@) && seed_error(self.random_seed) is None && !check_ok(
                self.check_type@,
                self.custom_check,
                self.builtin_check,
            ) ==> (r matches Err(e) && check_error(self.check_type@, self.custom_check, self.builtin_check, e)),
            tests_ok(self.tests@, file_names@) && seed_error(self.random_seed) is None && check_ok(
                self.check_type@,
                self.custom_check,
                self.builtin_check,
            ) ==> (r matches Ok(
                res,
            ) && {
                let (p, warnings) = res;
                &&& p.title == self.title
                &&& p.name == self.name
                &&& p.primary_solution == self.primary_solution
                &&& p.valuer == self.valuer
                &&& p.valuer_cfg == self.valuer_cfg
                &&& p.limits == self.limits
                &&& check_of(self.check_type@, self.custom_check, self.builtin_check, p.check)
                &&& tests_output(self.tests@, file_names@, p.tests@)
                &&& p.random_seed@ == seed_of(self.random_seed)
                &&& (self.check_options matches Some(co) ==> p.check_options == co)
                &&& (self.check_options is None ==> p.check_options.args@.len() == 0)
                &&& (self.random_seed is Some ==> warnings@.len() == 0)
                &&& (self.random_seed is None ==> warnings@.len() == 1
                    && warnings@[0]@ == "random-seed not present, hardcoded seed is used"@)
            }),
    {
        let tests = match self.process_tests(file_names) {
            Ok(t) => t,
            Err(e) => {
                return Err(e);
            },
        };
        let mut warnings: Vec<String> = Vec::new();
        let random_seed = match &self.random_seed {
            Some(s) => match check_seed(s) {
                Ok(l) => l,
                Err(e) => {
                    return Err(e);
                },
            },
            None => {
                warnings.push("random-seed not present, hardcoded seed is used".to_owned());
                "6a2c1750a93b8184".to_owned()
            },
        };
        let check = match make_check(self.check_type, self.custom_check, self.builtin_check) {
            Ok(c) => c,
            Err(e) => {
                return Err(e);
            },
        };
        let check_options = match self.check_options {
            Some(co) => co,
            None => CheckOptions { args: Vec::new() },
        };
        let out = Problem {
            title: self.title,
            primary_solution: self.primary_solution,
            check,
            tests,
            name: self.name,
            random_seed,
            check_options,
            valuer: self.valuer,
            valuer_cfg: self.valuer_cfg,
            limits: self.limits,
        };
        Ok((out, warnings))
    }
}

/// A digit's character has the digit's value.
proof fn lemma_digit_value(d: int)
    requires
        0 <= d < 10,
    ensures
        is_digit(digit_char(d)),
        digit_value(digit_char(d)) == d,
{
}

/// Reading the decimal text of a number gives the number back.
pub proof fn lemma_read_decimal(n: nat)
    requires
        n <= u32::MAX,
    ensures
        read_digits(decimal(n)) == Ok::<u32, IntErrorKind>(n as u32),
    decreases n,
{
    let d = decimal(n);
    if n < 10 {
        lemma_digit_value(n as int);
        assert(d == seq![digit_char(n as int)]);
        assert(d.drop_last() =~= Seq::<char>::empty());
        assert(read_digits(d.drop_last()) == Ok::<u32, IntErrorKind>(0));
        assert(d.last() == digit_char(n as int));
    } else {
        lemma_read_decimal(n / 10);
        lemma_digit_value((n % 10) as int);
        assert(d == decimal(n / 10).push(digit_char((n % 10) as int)));
        assert(d.drop_last() =~= decimal(n / 10));
        assert(d.last() == digit_char((n % 10) as int));
        assert((n / 10) * 10 + n % 10 == n) by (nonlinear_arith);
        assert(read_digits(d.drop_last()) == Ok::<u32, IntErrorKind>((n / 10) as u32));
    }
}

/// `u32::from_str` reads the decimal text of a number as the number.
pub proof fn lemma_parse_decimal(n: nat)
    requires
        n <= u32::MAX,
    ensures
        spec_parse_u32(decimal(n)) == Ok::<u32, IntErrorKind>(n as u32),
{
    lemma_decimal_digits(n);
    lemma_read_decimal(n);
    assert(decimal(n)[0] != '+');
}

/// A mapping that is the decimal text of a test id stands for that test
/// alone.
pub proof fn lemma_mapping_of_decimal(n: nat)
    requires
        n <= u32::MAX,
    ensures
        spec_mapping(decimal(n)) == Ok::<Seq<u32>, (int, ChunkError)>(seq![n as u32]),
{
    let s = decimal(n);
    lemma_decimal_digits(n);
    lemma_parse_decimal(n);
    lemma_no_occurrence(s, commas(), ',');
    lemma_no_occurrence(s, dots(), '.');
    let chunks = seq![s];
    assert(split_seq(s, commas()) == chunks);
    assert(chunks.drop_last() =~= Seq::<Seq<char>>::empty());
    assert(chunks.last() == s);
    assert(mapping_of_chunks(chunks.drop_last()) == Ok::<Seq<u32>, (int, ChunkError)>(Seq::empty()));
    assert(first_occurrence(s, dots(), 0) is None);
    assert(spec_chunk(s) == Ok::<Seq<u32>, ChunkError>(seq![n as u32]));
    assert(Seq::<u32>::empty() + seq![n as u32] =~= seq![n as u32]);
    assert(mapping_of_chunks(chunks) == Ok::<Seq<u32>, (int, ChunkError)>(seq![n as u32]));
}

} // verus!
