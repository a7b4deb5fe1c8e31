//! Parsing of the names the snapshot loader meets: decimal and hexadecimal
//! numbers, fork names, and relation data file names of the shape
//! `relnode [ "_" forkname ] [ "." segno ]`.

use vstd::prelude::*;
use vstd::string::StringSliceAdditionalSpecFns;

verus! {

/// ASCII bytes used by the file-name grammar.
pub const ASCII_0: u8 = 48;

pub const ASCII_9: u8 = 57;

pub const ASCII_UC_A: u8 = 65;

pub const ASCII_UC_F: u8 = 70;

pub const ASCII_LC_A: u8 = 97;

pub const ASCII_LC_F: u8 = 102;

pub const ASCII_DOT: u8 = 46;

pub const ASCII_UNDERSCORE: u8 = 95;

pub const ASCII_LC_S: u8 = 115;

pub const ASCII_LC_M: u8 = 109;

pub const ASCII_LC_V: u8 = 118;

pub const ASCII_LC_I: u8 = 105;

pub const ASCII_LC_N: u8 = 110;

pub const ASCII_LC_T: u8 = 116;


/// Error for a file name that does not parse.
#[derive(Clone, Debug)]
pub struct FilePathError {
    pub msg: String,
}

impl FilePathError {
    /// An error carrying `msg`.
    pub fn new(msg: &str) -> (e: FilePathError)
        ensures
            e.msg@ == msg@,
    {
        FilePathError { msg: msg.to_owned() }
    }

    /// The error text.
    pub fn message(&self) -> (m: &str)
        ensures
            m@ == self.msg@,
    {
        self.msg.as_str()
    }
}

/// Whether `b` is an ASCII decimal digit.
pub open spec fn is_dec_digit(b: u8) -> bool {
    ASCII_0 <= b <= ASCII_9
}

/// Whether `b` is an ASCII hexadecimal digit.
pub open spec fn is_hex_digit(b: u8) -> bool {
    (ASCII_0 <= b <= ASCII_9) || (ASCII_LC_A <= b <= ASCII_LC_F) || (ASCII_UC_A <= b <= ASCII_UC_F)
}

/// Value of one hexadecimal digit.
pub open spec fn hex_digit_val(b: u8) -> nat {
    if ASCII_0 <= b <= ASCII_9 {
        (b - ASCII_0) as nat
    } else if ASCII_LC_A <= b <= ASCII_LC_F {
        (b - ASCII_LC_A + 10) as nat
    } else {
        (b - ASCII_UC_A + 10) as nat
    }
}

/// Whether every byte of `s` is a decimal digit.
pub open spec fn all_dec_digits(s: Seq<u8>) -> bool {
    forall|i: int| 0 <= i < s.len() ==> is_dec_digit(#[trigger] s[i])
}

/// Whether every byte of `s` is a hexadecimal digit.
pub open spec fn all_hex_digits(s: Seq<u8>) -> bool {
    forall|i: int| 0 <= i < s.len() ==> is_hex_digit(#[trigger] s[i])
}

/// Numeric value of a string of decimal digits.
pub open spec fn dec_val(s: Seq<u8>) -> nat
    decreases s.len(),
{
    if s.len() == 0 {
        0
    } else {
        dec_val(s.drop_last()) * 10 + (s.last() - ASCII_0) as nat
    }
}

/// Numeric value of a string of hexadecimal digits.
pub open spec fn hex_val(s: Seq<u8>) -> nat
    decreases s.len(),
{
    if s.len() == 0 {
        0
    } else {
        hex_val(s.drop_last()) * 16 + hex_digit_val(s.last())
    }
}

/// What parsing a decimal number yields: the value of a non-empty all-digit
/// string that fits in 32 bits.
pub open spec fn spec_parse_dec_u32(s: Seq<u8>) -> Option<u32> {
    if s.len() > 0 && all_dec_digits(s) && dec_val(s) < 0x1_0000_0000 {
        Some(dec_val(s) as u32)
    } else {
        None
    }
}

/// What parsing a hexadecimal number yields: the value of a non-empty
/// all-hex-digit string that fits in 64 bits.
pub open spec fn spec_parse_hex_u64(s: Seq<u8>) -> Option<u64> {
    if s.len() > 0 && all_hex_digits(s) && hex_val(s) < 0x1_0000_0000_0000_0000 {
        Some(hex_val(s) as u64)
    } else {
        None
    }
}

proof fn lemma_dec_val_prefix_le(s: Seq<u8>, i: int)
    requires
        0 <= i <= s.len(),
    ensures
        dec_val(s.take(i)) <= dec_val(s),
    decreases s.len() - i,
{
    if i < s.len() {
        lemma_dec_val_prefix_le(s, i + 1);
        assert(s.take(i + 1).drop_last() =~= s.take(i));
        assert(s.take(i + 1).last() == s[i]);
        assert(dec_val(s.take(i + 1)) == dec_val(s.take(i)) * 10 + (s[i] - ASCII_0) as nat);
    } else {
        assert(s.take(i) =~= s);
    }
}

proof fn lemma_hex_val_prefix_le(s: Seq<u8>, i: int)
    requires
        0 <= i <= s.len(),
    ensures
        hex_val(s.take(i)) <= hex_val(s),
    decreases s.len() - i,
{
    if i < s.len() {
        lemma_hex_val_prefix_le(s, i + 1);
        assert(s.take(i + 1).drop_last() =~= s.take(i));
        assert(s.take(i + 1).last() == s[i]);
        assert(hex_val(s.take(i + 1)) == hex_val(s.take(i)) * 16 + hex_digit_val(s[i]));
    } else {
        assert(s.take(i) =~= s);
    }
}

/// Parses a non-empty string of decimal digits, refusing values that do not
/// fit in 32 bits.
pub fn parse_dec_u32(s: &[u8]) -> (r: Option<u32>)
    ensures
        r == spec_parse_dec_u32(s@),
{
    let n = s.len();
    if n == 0 {
        return None;
    }
    let mut acc: u32 = 0;
    let mut i: usize = 0;
    while i < n
        invariant
            n == s@.len(),
            0 < n,
            i <= n,
            forall|j: int| 0 <= j < i ==> is_dec_digit(#[trigger] s@[j]),
            acc == dec_val(s@.take(i as int)),
        decreases n - i,
    {
        let b = s[i];
        if b < ASCII_0 || b > ASCII_9 {
            return None;
        }
        let d: u32 = (b - ASCII_0) as u32;
        let wide: u64 = acc as u64 * 10 + d as u64;
        proof {
            assert(s@.take(i as int + 1).drop_last() =~= s@.take(i as int));
            assert(s@.take(i as int + 1).last() == s@[i as int]);
        }
        if wide > 0xffff_ffff {
            proof {
                lemma_dec_val_prefix_le(s@, i as int + 1);
            }
            return None;
        }
        acc = wide as u32;
        i = i + 1;
    }
    proof {
        assert(s@.take(n as int) =~= s@);
    }
    Some(acc)
}

/// Parses a non-empty string of hexadecimal digits (either case), refusing
/// values that do not fit in 64 bits.
pub fn parse_hex_u64(s: &[u8]) -> (r: Option<u64>)
    ensures
        r == spec_parse_hex_u64(s@),
{
    let n = s.len();
    if n == 0 {
        return None;
    }
    let mut acc: u64 = 0;
    let mut i: usize = 0;
    while i < n
        invariant
            n == s@.len(),
            0 < n,
            i <= n,
            forall|j: int| 0 <= j < i ==> is_hex_digit(#[trigger] s@[j]),
            acc == hex_val(s@.take(i as int)),
        decreases n - i,
    {
        let b = s[i];
        let d: u64 = if b >= ASCII_0 && b <= ASCII_9 {
            (b - ASCII_0) as u64
        } else if b >= ASCII_LC_A && b <= ASCII_LC_F {
            (b - ASCII_LC_A) as u64 + 10
        } else if b >= ASCII_UC_A && b <= ASCII_UC_F {
            (b - ASCII_UC_A) as u64 + 10
        } else {
            return None;
        };
        let wide: u128 = acc as u128 * 16 + d as u128;
        proof {
            assert(s@.take(i as int + 1).drop_last() =~= s@.take(i as int));
            assert(s@.take(i as int + 1).last() == s@[i as int]);
        }
        if wide > 0xffff_ffff_ffff_ffff {
            proof {
                lemma_hex_val_prefix_le(s@, i as int + 1);
            }
            return None;
        }
        acc = wide as u64;
        i = i + 1;
    }
    proof {
        assert(s@.take(n as int) =~= s@);
    }
    Some(acc)
}

/// The fork number a fork name stands for: an absent name is the main fork.
pub open spec fn spec_forkname_to_forknum(forkname: Option<Seq<u8>>) -> Option<u32> {
    match forkname {
        None => Some(0),
        Some(s) => if s == seq![ASCII_LC_F, ASCII_LC_S, ASCII_LC_M] {
            Some(1)
        } else if s == seq![ASCII_LC_V, ASCII_LC_M] {
            Some(2)
        } else if s == seq![ASCII_LC_I, ASCII_LC_N, ASCII_LC_I, ASCII_LC_T] {
            Some(3)
        } else {
            None
        },
    }
}

fn forkname_bytes_to_forknum(forkname: &[u8]) -> (r: Option<u32>)
    ensures
        r == spec_forkname_to_forknum(Some(forkname@)),
{
    let n = forkname.len();
    if n == 3 && forkname[0] == ASCII_LC_F && forkname[1] == ASCII_LC_S && forkname[2] == ASCII_LC_M {
        assert(forkname@ =~= seq![ASCII_LC_F, ASCII_LC_S, ASCII_LC_M]);
        Some(1)
    } else if n == 2 && forkname[0] == ASCII_LC_V && forkname[1] == ASCII_LC_M {
        assert(forkname@ =~= seq![ASCII_LC_V, ASCII_LC_M]);
        Some(2)
    } else if n == 4 && forkname[0] == ASCII_LC_I && forkname[1] == ASCII_LC_N && forkname[2] == ASCII_LC_I
        && forkname[3] == ASCII_LC_T {
        assert(forkname@ =~= seq![ASCII_LC_I, ASCII_LC_N, ASCII_LC_I, ASCII_LC_T]);
        Some(3)
    } else {
        proof {
            if forkname@ == seq![ASCII_LC_F, ASCII_LC_S, ASCII_LC_M] {
                assert(forkname@.len() == 3 && forkname@[0] == ASCII_LC_F && forkname@[1] == ASCII_LC_S
                    && forkname@[2] == ASCII_LC_M);
            }
            if forkname@ == seq![ASCII_LC_V, ASCII_LC_M] {
                assert(forkname@.len() == 2 && forkname@[0] == ASCII_LC_V && forkname@[1] == ASCII_LC_M);
            }
            if forkname@ == seq![ASCII_LC_I, ASCII_LC_N, ASCII_LC_I, ASCII_LC_T] {
                assert(forkname@.len() == 4 && forkname@[0] == ASCII_LC_I && forkname@[1] == ASCII_LC_N
                    && forkname@[2] == ASCII_LC_I && forkname@[3] == ASCII_LC_T);
            }
        }
        None
    }
}

/// Maps a fork name to its number: main (absent) is 0, `fsm` 1, `vm` 2,
/// `init` 3; any other name is refused.
pub fn forkname_to_forknum(forkname: Option<&str>) -> (r: Result<u32, FilePathError>)
    ensures
        match r {
            Ok(n) => spec_forkname_to_forknum(
                match forkname {
                    None => None,
                    Some(s) => Some(s.spec_bytes()),
                },
            ) == Some(n),
            Err(_) => spec_forkname_to_forknum(
                match forkname {
                    None => None,
                    Some(s) => Some(s.spec_bytes()),
                },
            ) is None,
        },
{
    match forkname {
        None => Ok(0),
        Some(s) => match forkname_bytes_to_forknum(s.as_bytes()) {
            Some(n) => Ok(n),
            None => Err(FilePathError::new("invalid forkname")),
        },
    }
}

/// Length of the longest leading run of decimal digits.
pub open spec fn digit_run_len(s: Seq<u8>) -> int
    decreases s.len(),
{
    if s.len() == 0 || !is_dec_digit(s[0]) {
        0
    } else {
        1 + digit_run_len(s.skip(1))
    }
}

/// Number of bytes before the first `.`, or the whole length if none.
pub open spec fn until_dot_len(s: Seq<u8>) -> int
    decreases s.len(),
{
    if s.len() == 0 || s[0] == ASCII_DOT {
        0
    } else {
        1 + until_dot_len(s.skip(1))
    }
}

proof fn lemma_digit_run_len(s: Seq<u8>, i: int)
    requires
        0 <= i <= s.len(),
        forall|j: int| 0 <= j < i ==> is_dec_digit(#[trigger] s[j]),
        i == s.len() || !is_dec_digit(s[i]),
    ensures
        digit_run_len(s) == i,
    decreases i,
{
    if i > 0 {
        assert(forall|j: int| 0 <= j < s.skip(1).len() ==> s.skip(1)[j] == s[j + 1]);
        lemma_digit_run_len(s.skip(1), i - 1);
    }
}

proof fn lemma_until_dot_len(s: Seq<u8>, i: int)
    requires
        0 <= i <= s.len(),
        forall|j: int| 0 <= j < i ==> (#[trigger] s[j]) != ASCII_DOT,
        i == s.len() || s[i] == ASCII_DOT,
    ensures
        until_dot_len(s) == i,
    decreases i,
{
    if i > 0 {
        assert(forall|j: int| 0 <= j < s.skip(1).len() ==> s.skip(1)[j] == s[j + 1]);
        lemma_until_dot_len(s.skip(1), i - 1);
    }
}

/// Functional reading of a relation data file name, with the shape
/// `relnode [ "_" forkname ] [ "." segno ]`: `relnode` and `segno` are
/// decimal numbers, `forkname` one of `fsm`, `vm`, `init`. An absent fork
/// means the main fork; an absent segno means segment zero.
pub open spec fn spec_parse_relfilename(s: Seq<u8>) -> Option<(u32, u32, u32)> {
    let d = digit_run_len(s);
    if d == 0 {
        None
    } else {
        match spec_parse_dec_u32(s.take(d)) {
            None => None,
            Some(relnode) => {
                let rest = s.skip(d);
                let fork_and_seg = if rest.len() > 0 && rest[0] == ASCII_UNDERSCORE {
                    let f = until_dot_len(rest.skip(1));
                    (
                        spec_forkname_to_forknum(Some(rest.skip(1).take(f))),
                        rest.skip(1).skip(f),
                    )
                } else {
                    (Some(0u32), rest)
                };
                match fork_and_seg.0 {
                    None => None,
                    Some(forknum) => {
                        let segrest = fork_and_seg.1;
                        if segrest.len() == 0 {
                            Some((relnode, forknum, 0))
                        } else if segrest[0] == ASCII_DOT {
                            match spec_parse_dec_u32(segrest.skip(1)) {
                                None => None,
                                Some(segno) => Some((relnode, forknum, segno)),
                            }
                        } else {
                            None
                        }
                    },
                }
            },
        }
    }
}

/// Parses a relation data file name into `(relnode, forknum, segno)`.
pub fn parse_relfilename(fname: &str) -> (r: Result<(u32, u32, u32), FilePathError>)
    ensures
        match r {
            Ok(t) => spec_parse_relfilename(fname.spec_bytes()) == Some(t),
            Err(_) => spec_parse_relfilename(fname.spec_bytes()) is None,
        },
{
    let b = fname.as_bytes();
    let n = b.len();
    let mut d: usize = 0;
    while d < n && b[d] >= ASCII_0 && b[d] <= ASCII_9
        invariant
            n == b@.len(),
            d <= n,
            forall|j: int| 0 <= j < d ==> is_dec_digit(#[trigger] b@[j]),
        decreases n - d,
    {
        d = d + 1;
    }
    proof {
        lemma_digit_run_len(b@, d as int);
    }
    if d == 0 {
        return Err(FilePathError::new("invalid relation data file name"));
    }
    let relnode = match parse_dec_u32(&b[0..d]) {
        None => {
            return Err(FilePathError::new("invalid relation data file name"));
        },
        Some(v) => v,
    };
    proof {
        assert(b@.subrange(0, d as int) =~= b@.take(d as int));
    }
    let ghost rest = b@.skip(d as int);
    let mut forknum: u32 = 0;
    let mut pos: usize = d;
    if pos < n && b[pos] == ASCII_UNDERSCORE {
        let fstart = pos + 1;
        let mut fend = fstart;
        while fend < n && b[fend] != ASCII_DOT
            invariant
                n == b@.len(),
                fstart <= fend <= n,
                forall|j: int| fstart <= j < fend ==> (#[trigger] b@[j]) != ASCII_DOT,
            decreases n - fend,
        {
            fend = fend + 1;
        }
        proof {
            let tail = rest.skip(1);
            assert(tail =~= b@.skip(fstart as int));
            assert(forall|j: int| 0 <= j < tail.len() ==> tail[j] == b@[j + fstart]);
            lemma_until_dot_len(tail, fend - fstart);
            assert(tail.take(fend - fstart) =~= b@.subrange(fstart as int, fend as int));
            assert(tail.skip(fend - fstart) =~= b@.skip(fend as int));
        }
        forknum = match forkname_bytes_to_forknum(&b[fstart..fend]) {
            None => {
                return Err(FilePathError::new("invalid forkname"));
            },
            Some(v) => v,
        };
        pos = fend;
    }
    let ghost segrest = b@.skip(pos as int);
    proof {
        if d < n && b@[d as int] == ASCII_UNDERSCORE {
        } else {
            assert(segrest =~= rest);
        }
    }
    if pos == n {
        return Ok((relnode, forknum, 0));
    }
    if b[pos] == ASCII_DOT {
        proof {
            assert(b@.subrange(pos as int + 1, n as int) =~= segrest.skip(1));
        }
        let segno = match parse_dec_u32(&b[pos + 1..n]) {
            None => {
                return Err(FilePathError::new("invalid relation data file name"));
            },
            Some(v) => v,
        };
        Ok((relnode, forknum, segno))
    } else {
        Err(FilePathError::new("invalid relation data file name"))
    }
}

} // verus!
