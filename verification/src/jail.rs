//! Bookkeeping of sandbox jails: their random ids, where their control
//! groups live, and the resource usage that the control group files
//! report.
use vstd::prelude::*;
use crate::importer::{parse_u64, spec_parse_u64};
use rand::seq::SliceRandom;
use crate::manifest::IntErrorKind;
use crate::text::{
    chars_of, is_white_space, lines, spec_lines, starts_with, string_of, trim_start_all, trim_start_all_chars,
};

verus! {

/// The characters a jail id is made of.
pub const ID_CHARS: &'static str = "qwertyuiopasdfghjklzxcvbnm1234567890";

/// How many characters a jail id has.
pub const ID_SIZE: usize = 8;

/// `rand::seq::SliceRandom::choose` on `chars` with `rand::thread_rng()`:
/// one of the bytes of `chars`, picked at random. Only that it is one of
/// them is stated.
#[verifier::external_body]
fn choose_byte(chars: &[u8]) -> (r: u8)
    requires
        chars@.len() > 0,
    ensures
        chars@.contains(r),
{
    *chars.choose(&mut rand::thread_rng()).unwrap()
}

/// The jail id characters as bytes.
pub open spec fn id_bytes() -> Seq<u8> {
    seq![
        113u8, 119, 101, 114, 116, 121, 117, 105, 111, 112, 97, 115, 100, 102, 103, 104, 106, 107, 108, 122, 120,
        99, 118, 98, 110, 109, 49, 50, 51, 52, 53, 54, 55, 56, 57, 48,
    ]
}

fn id_alphabet() -> (r: Vec<u8>)
    ensures
        r@ == id_bytes(),
{
    let v: Vec<u8> = vec![
        113u8, 119, 101, 114, 116, 121, 117, 105, 111, 112, 97, 115, 100, 102, 103, 104, 106, 107, 108, 122, 120,
        99, 118, 98, 110, 109, 49, 50, 51, 52, 53, 54, 55, 56, 57, 48,
    ];
    proof {
        assert(v@ =~= id_bytes());
    }
    v
}

/// A character of a jail id: a lower-case latin letter or a digit.
pub open spec fn is_id_char(c: char) -> bool {
    ('a' <= c && c <= 'z') || ('0' <= c && c <= '9')
}

/// A new random jail id: `ID_SIZE` characters, each a lower-case latin
/// letter or a digit.
pub fn gen_jail_id() -> (r: String)
    ensures
        r@.len() == ID_SIZE,
        forall|i: int| 0 <= i < r@.len() ==> is_id_char(#[trigger] r@[i]),
{
    let alphabet = id_alphabet();
    let mut out: Vec<char> = Vec::new();
    let mut i: usize = 0;
    while i < ID_SIZE
        invariant
            alphabet@ == id_bytes(),
            0 <= i <= ID_SIZE,
            out@.len() == i,
            forall|k: int| 0 <= k < out@.len() ==> is_id_char(#[trigger] out@[k]),
        decreases ID_SIZE - i,
    {
        let b = choose_byte(alphabet.as_slice());
        proof {
            let k = choose|k: int| 0 <= k < alphabet@.len() && alphabet@[k] == b;
            assert((97 <= b && b <= 122) || (48 <= b && b <= 57));
        }
        let c = b as char;
        proof {
            assert(is_id_char(c));
        }
        out.push(c);
        i = i + 1;
    }
    string_of(&out)
}

fn concat(a: &str, b: &str) -> (r: String)
    ensures
        r@ == a@ + b@,
{
    let mut s = String::from_str(a);
    s.append(b);
    s
}

/// The control group directory of a jail for a legacy subsystem.
pub fn get_path_for_subsystem(subsys_name: &str, cgroup_id: &str) -> (r: String)
    ensures
        r@ == "/sys/fs/cgroup/"@ + subsys_name@ + "/jjs/g-"@ + cgroup_id@,
{
    let a = concat("/sys/fs/cgroup/", subsys_name);
    let b = concat(a.as_str(), "/jjs/g-");
    concat(b.as_str(), cgroup_id)
}

/// `s` without white space at its start.
pub open spec fn trim_start_ws(s: Seq<char>) -> Seq<char>
    decreases s.len(),
{
    if s.len() > 0 && is_white_space(s[0]) {
        trim_start_ws(s.drop_first())
    } else {
        s
    }
}

/// `s` without white space at its end.
pub open spec fn trim_end_ws(s: Seq<char>) -> Seq<char>
    decreases s.len(),
{
    if s.len() > 0 && is_white_space(s.last()) {
        trim_end_ws(s.drop_last())
    } else {
        s
    }
}

/// `s` without white space at either end (`str::trim`).
pub open spec fn trim_ws(s: Seq<char>) -> Seq<char> {
    trim_end_ws(trim_start_ws(s))
}

/// `s` without the character `c` repeated at its end
/// (`str::trim_end_matches` with a character).
pub open spec fn trim_end_char(s: Seq<char>, c: char) -> Seq<char>
    decreases s.len(),
{
    if s.len() > 0 && s.last() == c {
        trim_end_char(s.drop_last(), c)
    } else {
        s
    }
}

fn is_ws(c: char) -> (r: bool)
    ensures
        r == is_white_space(c),
{
    ('\u{9}' <= c && c <= '\u{d}') || c == ' ' || c == '\u{85}' || c == '\u{a0}' || c == '\u{1680}' || (
    '\u{2000}' <= c && c <= '\u{200a}') || c == '\u{2028}' || c == '\u{2029}' || c == '\u{202f}' || c
        == '\u{205f}' || c == '\u{3000}'
}

/// The characters of `s` without white space at either end.
pub fn trim(s: &str) -> (r: String)
    ensures
        r@ == trim_ws(s@),
{
    let cs = chars_of(s);
    let n = cs.len();
    let mut a: usize = 0;
    proof {
        assert(cs@.subrange(0, n as int) =~= cs@);
    }
    while a < n && is_ws(cs[a])
        invariant
            n == cs@.len(),
            cs@ == s@,
            0 <= a <= n,
            trim_start_ws(s@) == trim_start_ws(cs@.subrange(a as int, n as int)),
        decreases n - a,
    {
        proof {
            assert(cs@.subrange(a as int, n as int).drop_first() =~= cs@.subrange(a + 1, n as int));
        }
        a = a + 1;
    }
    proof {
        assert(cs@.subrange(0, n as int) =~= cs@);
    }
    let mut b: usize = n;
    let ghost start = cs@.subrange(a as int, n as int);
    proof {
        assert(trim_start_ws(s@) == start);
    }
    while b > a && is_ws(cs[b - 1])
        invariant
            n == cs@.len(),
            0 <= a <= b <= n,
            start == cs@.subrange(a as int, n as int),
            trim_end_ws(start) == trim_end_ws(cs@.subrange(a as int, b as int)),
        decreases b,
    {
        proof {
            assert(cs@.subrange(a as int, b as int).drop_last() =~= cs@.subrange(a as int, b - 1));
        }
        b = b - 1;
    }
    let mut out: Vec<char> = Vec::new();
    let mut k: usize = a;
    while k < b
        invariant
            n == cs@.len(),
            0 <= a <= k <= b <= n,
            out@ == cs@.subrange(a as int, k as int),
        decreases b - k,
    {
        out.push(cs[k]);
        proof {
            assert(cs@.subrange(a as int, k + 1) =~= cs@.subrange(a as int, k as int).push(cs@[k as int]));
        }
        k = k + 1;
    }
    string_of(&out)
}

/// The number a control group file holds: its text without surrounding
/// white space, read as a `u64`; `None` when it is not one.
pub open spec fn usage_value(text: Seq<char>) -> Option<u64> {
    match spec_parse_u64(trim_ws(text)) {
        Ok(v) => Some(v),
        Err(_) => None,
    }
}

/// Reads the number in a control group file (`cpuacct.usage`,
/// `memory.max_usage_in_bytes`).
pub fn parse_usage(text: &str) -> (r: Option<u64>)
    ensures
        r == usage_value(text@),
{
    let t = trim(text);
    match parse_u64(t.as_str()) {
        Ok(v) => Some(v),
        Err(_) => None,
    }
}

/// The value of a `usage_usec` line of `cpu.stat`: what follows the
/// repeated `usage_usec ` prefix, without trailing newlines.
pub open spec fn usec_value(line: Seq<char>) -> Result<u64, IntErrorKind> {
    spec_parse_u64(trim_end_char(trim_start_all(line, "usage_usec "@), '\n'))
}

/// A line of `cpu.stat` that reports the time used.
pub open spec fn is_usec_line(line: Seq<char>) -> bool {
    "usage_usec"@.len() <= line.len() && line.subrange(0, "usage_usec"@.len() as int) == "usage_usec"@
}

/// The CPU time, in microseconds, that the `cpu.stat` lines `ls` report:
/// the last `usage_usec` line's value, zero without one; `None` when such
/// a line does not hold a number.
pub open spec fn stat_usec(ls: Seq<Seq<char>>) -> Option<u64>
    decreases ls.len(),
{
    if ls.len() == 0 {
        Some(0)
    } else {
        match stat_usec(ls.drop_last()) {
            None => None,
            Some(v) => if is_usec_line(ls.last()) {
                match usec_value(ls.last()) {
                    Ok(u) => Some(u),
                    Err(_) => None,
                }
            } else {
                Some(v)
            },
        }
    }
}

/// A line that holds no number stops the rest.
proof fn lemma_stat_usec_none(ls: Seq<Seq<char>>, k: int)
    requires
        0 <= k <= ls.len(),
        stat_usec(ls.take(k)) is None,
    ensures
        stat_usec(ls) is None,
    decreases ls.len() - k,
{
    if k < ls.len() {
        assert(ls.take(k + 1).drop_last() =~= ls.take(k));
        lemma_stat_usec_none(ls, k + 1);
    } else {
        assert(ls.take(k) =~= ls);
    }
}

/// The CPU time, in nanoseconds, that a unified control group's
/// `cpu.stat` reports; `None` when a `usage_usec` line does not hold a
/// number or the nanoseconds do not fit in a `u64`.
pub fn cpu_usage_v2(stat: &str) -> (r: Option<u64>)
    ensures
        r == match stat_usec(spec_lines(stat@)) {
            Some(u) => if u * 1000 <= u64::MAX {
                Some((u * 1000) as u64)
            } else {
                None
            },
            None => None,
        },
{
    let ls = lines(stat);
    let ghost lv = ls@.map_values(|l: Vec<char>| l@);
    let prefix = chars_of("usage_usec ");
    let mut val: u64 = 0;
    let mut i: usize = 0;
    proof {
        assert(lv.take(0) =~= Seq::<Seq<char>>::empty());
    }
    while i < ls.len()
        invariant
            0 <= i <= ls@.len(),
            lv == ls@.map_values(|l: Vec<char>| l@),
            lv == spec_lines(stat@),
            prefix@ == "usage_usec "@,
            stat_usec(lv.take(i as int)) == Some(val),
        decreases ls@.len() - i,
    {
        proof {
            assert(lv.take(i + 1).drop_last() =~= lv.take(i as int));
            assert(lv.take(i + 1).last() == ls@[i as int]@);
        }
        let line = string_of(&ls[i]);
        if starts_with(line.as_str(), "usage_usec") {
            let rest = trim_start_all_chars(&ls[i], &prefix);
            let mut end = rest.len();
            proof {
                assert(rest@.subrange(0, rest@.len() as int) =~= rest@);
            }
            while end > 0 && rest[end - 1] == '\n'
                invariant
                    end <= rest@.len(),
                    trim_end_char(rest@, '\n') == trim_end_char(rest@.subrange(0, end as int), '\n'),
                decreases end,
            {
                proof {
                    assert(rest@.subrange(0, end as int).drop_last() =~= rest@.subrange(0, end - 1));
                }
                end = end - 1;
            }
            proof {
                assert(trim_end_char(rest@, '\n') == rest@.subrange(0, end as int));
            }
            let mut digits: Vec<char> = Vec::new();
            let mut k: usize = 0;
            while k < end
                invariant
                    end <= rest@.len(),
                    0 <= k <= end,
                    digits@ == rest@.subrange(0, k as int),
                decreases end - k,
            {
                digits.push(rest[k]);
                proof {
                    assert(rest@.subrange(0, k + 1) =~= rest@.subrange(0, k as int).push(rest@[k as int]));
                }
                k = k + 1;
            }
            let text = string_of(&digits);
            match parse_u64(text.as_str()) {
                Ok(u) => {
                    val = u;
                },
                Err(_) => {
                    proof {
                        lemma_stat_usec_none(lv, i + 1);
                    }
                    return None;
                },
            }
        }
        i = i + 1;
    }
    proof {
        assert(lv.take(ls@.len() as int) =~= lv);
    }
    val.checked_mul(1000)
}

} // verus!
