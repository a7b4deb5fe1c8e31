//! Write-ahead-log segment file naming: the log is cut into fixed-size
//! segments whose file names concatenate three 8-digit uppercase hexadecimal
//! fields — the timeline and the high and low halves of the segment number.

use vstd::prelude::*;
use vstd::string::StringExecFns;
use vstd::string::StringSliceAdditionalSpecFns;

use crate::filepath::{all_hex_digits, hex_val, is_hex_digit, parse_hex_u64};
use crate::filepath::{ASCII_DOT, ASCII_LC_A, ASCII_LC_I, ASCII_LC_T};
use crate::WAL_SEG_SIZE;

verus! {

/// Length of a WAL segment file name.
pub const XLOG_FNAME_LEN: usize = 24;

/// A position in the write-ahead log.
pub type XLogRecPtr = u64;

/// A segment number.
pub type XLogSegNo = u64;

/// A timeline identifier.
pub type TimeLineID = u32;

/// ASCII bytes of the `.partial` suffix besides those the grammar already
/// names.
pub const ASCII_LC_P: u8 = 112;

pub const ASCII_LC_R: u8 = 114;

pub const ASCII_LC_L: u8 = 108;

/// The bytes of the `.partial` suffix.
pub open spec fn partial_suffix() -> Seq<u8> {
    seq![
        ASCII_DOT,
        ASCII_LC_P,
        ASCII_LC_A,
        ASCII_LC_R,
        ASCII_LC_T,
        ASCII_LC_I,
        ASCII_LC_A,
        ASCII_LC_L,
    ]
}

/// The byte offset of position `xlogptr` within its segment.
#[allow(non_snake_case)]
pub fn XLogSegmentOffset(xlogptr: XLogRecPtr, wal_segsz_bytes: usize) -> (r: u32)
    requires
        wal_segsz_bytes == WAL_SEG_SIZE,
    ensures
        r == xlogptr % (wal_segsz_bytes as u64),
{
    proof {
        assert((xlogptr as u32) & 0xffffffu32 == (xlogptr % 0x1000000u64) as u32) by (bit_vector);
        assert(xlogptr % 0x1000000u64 < 0x1000000u64) by (bit_vector);
    }
    (xlogptr as u32) & (wal_segsz_bytes as u32 - 1)
}

/// The segment number that holds position `xlogptr`.
#[allow(non_snake_case)]
pub fn XLByteToSeg(xlogptr: XLogRecPtr, wal_segsz_bytes: usize) -> (r: XLogSegNo)
    requires
        wal_segsz_bytes > 0,
    ensures
        r == xlogptr / (wal_segsz_bytes as u64),
{
    xlogptr / (wal_segsz_bytes as u64)
}

/// How many segments share one high half of the segment number.
#[allow(non_snake_case)]
pub fn XLogSegmentsPerXLogId(wal_segsz_bytes: usize) -> (r: XLogSegNo)
    requires
        wal_segsz_bytes > 0,
    ensures
        r == 0x1_0000_0000u64 / (wal_segsz_bytes as u64),
{
    0x1_0000_0000u64 / (wal_segsz_bytes as u64)
}

/// The uppercase hexadecimal digit for a value below 16.
pub open spec fn hex_char_of(d: u8) -> char {
    if d < 10 {
        ((d + 48) as u8) as char
    } else {
        ((d + 55) as u8) as char
    }
}

/// Eight uppercase hexadecimal digits, most significant first.
pub open spec fn hex8(v: u32) -> Seq<char> {
    Seq::new(8, |i: int| hex_char_of((((v >> (((7 - i) * 4) as u32)) & 0xf) as u8)))
}

/// The name of a WAL segment file: timeline, then the high and low halves
/// of the segment number, each as eight uppercase hexadecimal digits.
pub open spec fn spec_xlog_file_name(tli: TimeLineID, segno: XLogSegNo) -> Seq<char> {
    hex8(tli) + hex8((segno / 256) as u32) + hex8((segno % 256) as u32)
}

fn push_hex_digit(s: &mut String, d: u8)
    requires
        d < 16,
    ensures
        final(s)@ == old(s)@ + seq![hex_char_of(d)],
{
    match d {
        0 => s.append("0"),
        1 => s.append("1"),
        2 => s.append("2"),
        3 => s.append("3"),
        4 => s.append("4"),
        5 => s.append("5"),
        6 => s.append("6"),
        7 => s.append("7"),
        8 => s.append("8"),
        9 => s.append("9"),
        10 => s.append("A"),
        11 => s.append("B"),
        12 => s.append("C"),
        13 => s.append("D"),
        14 => s.append("E"),
        _ => s.append("F"),
    }
    proof {
        reveal_strlit("0");
        reveal_strlit("1");
        reveal_strlit("2");
        reveal_strlit("3");
        reveal_strlit("4");
        reveal_strlit("5");
        reveal_strlit("6");
        reveal_strlit("7");
        reveal_strlit("8");
        reveal_strlit("9");
        reveal_strlit("A");
        reveal_strlit("B");
        reveal_strlit("C");
        reveal_strlit("D");
        reveal_strlit("E");
        reveal_strlit("F");
        assert(final(s)@ =~= old(s)@ + seq![hex_char_of(d)]);
    }
}

fn push_hex8(s: &mut String, v: u32)
    ensures
        final(s)@ == old(s)@ + hex8(v),
{
    let mut k: usize = 0;
    while k < 8
        invariant
            k <= 8,
            s@ == old(s)@ + hex8(v).take(k as int),
        decreases 8 - k,
    {
        let shift: u32 = (7 - k as u32) * 4;
        let d: u8 = ((v >> shift) & 0xf) as u8;
        proof {
            assert((v >> shift) & 0xf < 16) by (bit_vector);
            assert(hex8(v)[k as int] == hex_char_of(d));
        }
        push_hex_digit(s, d);
        proof {
            assert(hex8(v).take(k as int + 1) =~= hex8(v).take(k as int) + seq![
                hex8(v)[k as int],
            ]);
            assert(s@ =~= old(s)@ + hex8(v).take(k as int + 1));
        }
        k = k + 1;
    }
    proof {
        assert(hex8(v).take(8) =~= hex8(v));
    }
}

/// The file name of WAL segment `logSegNo` on timeline `tli`.
#[allow(non_snake_case)]
pub fn XLogFileName(tli: TimeLineID, logSegNo: XLogSegNo, wal_segsz_bytes: usize) -> (r: String)
    requires
        wal_segsz_bytes == WAL_SEG_SIZE,
        logSegNo / 256 <= u32::MAX as u64,
    ensures
        r@ == spec_xlog_file_name(tli, logSegNo),
{
    let mut name = String::new();
    push_hex8(&mut name, tli);
    push_hex8(&mut name, (logSegNo / 256) as u32);
    push_hex8(&mut name, (logSegNo % 256) as u32);
    proof {
        assert(name@ =~= spec_xlog_file_name(tli, logSegNo));
    }
    name
}

proof fn lemma_hex_val_bound(s: Seq<u8>, bound: nat)
    requires
        all_hex_digits(s),
        s.len() <= 8,
        bound == 0x1_0000_0000,
    ensures
        hex_val(s) < bound,
{
    lemma_hex_val_bound_len(s);
    lemma_pow16_mono(s.len() as nat, 8);
    lemma_pow16_8();
}

/// Sixteen to the `n`th power.
spec fn pow16(n: nat) -> nat
    decreases n,
{
    if n == 0 {
        1
    } else {
        16 * pow16((n - 1) as nat)
    }
}

proof fn lemma_hex_val_bound_len(s: Seq<u8>)
    requires
        all_hex_digits(s),
    ensures
        hex_val(s) < pow16(s.len()),
    decreases s.len(),
{
    if s.len() > 0 {
        assert(forall|i: int| 0 <= i < s.len() - 1 ==> s.drop_last()[i] == s[i]);
        lemma_hex_val_bound_len(s.drop_last());
        assert(is_hex_digit(s.last()));
        assert(crate::filepath::hex_digit_val(s.last()) < 16);
        assert(hex_val(s.drop_last()) <= pow16((s.len() - 1) as nat) - 1);
        assert(hex_val(s.drop_last()) * 16 <= (pow16((s.len() - 1) as nat) - 1) * 16);
    }
}

proof fn lemma_pow16_mono(a: nat, b: nat)
    requires
        a <= b,
    ensures
        pow16(a) <= pow16(b),
    decreases b,
{
    if a < b {
        lemma_pow16_mono(a, (b - 1) as nat);
    }
}

proof fn lemma_pow16_8()
    ensures
        pow16(8) == 0x1_0000_0000,
{
    reveal_with_fuel(pow16, 9);
}

/// Reads a segment file name back into its segment number and timeline.
#[allow(non_snake_case)]
pub fn XLogFromFileName(fname: &str, wal_seg_size: usize) -> (r: (XLogSegNo, TimeLineID))
    requires
        wal_seg_size == WAL_SEG_SIZE,
        fname.spec_bytes().len() == 24,
        all_hex_digits(fname.spec_bytes()),
    ensures
        r.1 == hex_val(fname.spec_bytes().take(8)),
        r.0 == hex_val(fname.spec_bytes().subrange(8, 16)) * 256 + hex_val(
            fname.spec_bytes().subrange(16, 24),
        ),
{
    let b = fname.as_bytes();
    let ghost bs = fname.spec_bytes();
    proof {
        assert(b@.subrange(0, 8) =~= bs.take(8));
        lemma_hex_val_bound(bs.take(8), 0x1_0000_0000);
        lemma_hex_val_bound(bs.subrange(8, 16), 0x1_0000_0000);
        lemma_hex_val_bound(bs.subrange(16, 24), 0x1_0000_0000);
    }
    let tli = parse_hex_u64(&b[0..8]).unwrap() as u32;
    let log = parse_hex_u64(&b[8..16]).unwrap();
    let seg = parse_hex_u64(&b[16..24]).unwrap();
    (log * 256 + seg, tli)
}

/// Whether `fname` has the shape of a WAL segment file name: 24 hexadecimal
/// digits.
#[allow(non_snake_case)]
pub fn IsXLogFileName(fname: &str) -> (r: bool)
    ensures
        r == (fname.spec_bytes().len() == 24 && all_hex_digits(fname.spec_bytes())),
{
    let b = fname.as_bytes();
    if b.len() != XLOG_FNAME_LEN {
        return false;
    }
    let mut i: usize = 0;
    while i < 24
        invariant
            b@ == fname.spec_bytes(),
            b@.len() == 24,
            i <= 24,
            forall|j: int| 0 <= j < i ==> is_hex_digit(#[trigger] b@[j]),
        decreases 24 - i,
    {
        let c = b[i];
        let ok = (c >= 48 && c <= 57) || (c >= 97 && c <= 102) || (c >= 65 && c <= 70);
        if !ok {
            return false;
        }
        i = i + 1;
    }
    true
}

/// Whether `fname` is a WAL segment file name with the `.partial` suffix of
/// a still-growing segment.
#[allow(non_snake_case)]
pub fn IsPartialXLogFileName(fname: &str) -> (r: bool)
    ensures
        r == (fname.spec_bytes().len() == 32 && fname.spec_bytes().subrange(24, 32)
            == partial_suffix() && all_hex_digits(fname.spec_bytes().take(24))),
{
    let b = fname.as_bytes();
    if b.len() != 32 {
        return false;
    }
    let suffix_ok = b[24] == ASCII_DOT && b[25] == ASCII_LC_P && b[26] == ASCII_LC_A && b[27]
        == ASCII_LC_R && b[28] == ASCII_LC_T && b[29] == ASCII_LC_I && b[30] == ASCII_LC_A && b[31]
        == ASCII_LC_L;
    if !suffix_ok {
        proof {
            if b@.subrange(24, 32) == partial_suffix() {
                assert(b@[24] == partial_suffix()[0]);
                assert(b@[25] == partial_suffix()[1]);
                assert(b@[26] == partial_suffix()[2]);
                assert(b@[27] == partial_suffix()[3]);
                assert(b@[28] == partial_suffix()[4]);
                assert(b@[29] == partial_suffix()[5]);
                assert(b@[30] == partial_suffix()[6]);
                assert(b@[31] == partial_suffix()[7]);
            }
        }
        return false;
    }
    proof {
        assert(b@.subrange(24, 32) =~= partial_suffix());
    }
    let mut i: usize = 0;
    while i < 24
        invariant
            b@ == fname.spec_bytes(),
            b@.len() == 32,
            i <= 24,
            forall|j: int| 0 <= j < i ==> is_hex_digit(#[trigger] b@[j]),
        decreases 24 - i,
    {
        let c = b[i];
        let ok = (c >= 48 && c <= 57) || (c >= 97 && c <= 102) || (c >= 65 && c <= 70);
        if !ok {
            assert(!is_hex_digit(b@[i as int]));
            assert(b@.take(24)[i as int] == b@[i as int]);
            return false;
        }
        i = i + 1;
    }
    proof {
        assert(forall|j: int| 0 <= j < 24 ==> b@.take(24)[j] == b@[j]);
    }
    true
}

} // verus!
