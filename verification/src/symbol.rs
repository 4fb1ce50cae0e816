//! Tree-drawing glyphs, line prefixes, and human-readable file sizes.

use vstd::prelude::*;
use vstd::string::StringExecFns;

verus! {

/// Horizontal line glyph.
pub const HOR: char = '─';

/// Branch glyph for an entry with further siblings below it.
pub const CRO: char = '├';

/// Vertical continuation glyph for an ancestor with further siblings.
pub const VER: char = '│';

/// Terminator glyph for the last entry of its directory.
pub const END: char = '└';

/// Padding between columns.
pub const SPACE: char = ' ';

/// One continuation column of the prefix: a vertical bar when the ancestor
/// at that depth still has siblings to print, blank space otherwise.
pub open spec fn continuation_column(more: bool) -> Seq<char> {
    if more {
        seq![VER, SPACE, SPACE, SPACE]
    } else {
        seq![SPACE, SPACE, SPACE, SPACE]
    }
}

/// The final column of the prefix: a tee when the entry has siblings after
/// it, a corner when it is the last of its directory.
pub open spec fn branch_column(more: bool) -> Seq<char> {
    if more {
        seq![CRO, HOR, HOR, SPACE]
    } else {
        seq![END, HOR, HOR, SPACE]
    }
}

/// Continuation columns for every level in `states`, in order.
pub open spec fn continuation_columns(states: Seq<bool>) -> Seq<char>
    decreases states.len(),
{
    if states.len() == 0 {
        Seq::empty()
    } else {
        continuation_columns(states.drop_last()) + continuation_column(states.last())
    }
}

/// The whole prefix for one line: continuation columns for every ancestor
/// level, then the branch column for the entry's own level.  An empty state
/// vector (the root entry) yields an empty prefix.
pub open spec fn prefix_chars(states: Seq<bool>) -> Seq<char> {
    if states.len() == 0 {
        Seq::empty()
    } else {
        continuation_columns(states.drop_last()) + branch_column(states.last())
    }
}

/// Rebuilds `prefix` from the per-level sibling states.  The output is a
/// function of `symbol_switch_list` alone, so two calls on the same states
/// produce the same prefix.
pub fn set_line_prefix(symbol_switch_list: &[bool], prefix: &mut String)
    ensures
        final(prefix)@ == prefix_chars(symbol_switch_list@),
{
    let ghost states: Seq<bool> = symbol_switch_list@;
    let len = symbol_switch_list.len();
    *prefix = String::new();
    if len == 0 {
        return ;
    }
    let mut i: usize = 0;
    while i < len - 1
        invariant
            len == states.len(),
            1 <= len,
            i <= len - 1,
            symbol_switch_list@ == states,
            prefix@ == continuation_columns(states.take(i as int)),
        decreases len - 1 - i,
    {
        if symbol_switch_list[i] {
            prefix.append("│   ");
            proof {
                reveal_strlit("│   ");
            }
        } else {
            prefix.append("    ");
            proof {
                reveal_strlit("    ");
            }
        }
        proof {
            assert(states.take(i + 1).drop_last() =~= states.take(i as int));
            assert(states.take(i + 1).last() == states[i as int]);
        }
        i = i + 1;
    }
    if symbol_switch_list[len - 1] {
        prefix.append("├── ");
        proof {
            reveal_strlit("├── ");
        }
    } else {
        prefix.append("└── ");
        proof {
            reveal_strlit("└── ");
        }
    }
    proof {
        assert(states.take(len - 1) =~= states.drop_last());
    }
}

/// The decimal digit character for `d`.
pub open spec fn spec_digit_char(d: nat) -> char {
    if d == 0 {
        '0'
    } else if d == 1 {
        '1'
    } else if d == 2 {
        '2'
    } else if d == 3 {
        '3'
    } else if d == 4 {
        '4'
    } else if d == 5 {
        '5'
    } else if d == 6 {
        '6'
    } else if d == 7 {
        '7'
    } else if d == 8 {
        '8'
    } else {
        '9'
    }
}

/// The decimal digits of `n`, most significant first, with no leading
/// zeroes (except for `n == 0` itself).
pub open spec fn spec_decimal(n: nat) -> Seq<char>
    decreases n,
{
    if n < 10 {
        seq![spec_digit_char(n)]
    } else {
        spec_decimal(n / 10).push(spec_digit_char(n % 10))
    }
}

/// `1024^k`.
pub open spec fn pow1024(k: nat) -> nat
    decreases k,
{
    if k == 0 {
        1
    } else {
        1024 * pow1024((k - 1) as nat)
    }
}

/// The scale on which `bytes` is reported: the largest power of 1024 not
/// above it, capped at petabytes.
pub open spec fn size_unit_index(bytes: nat) -> nat {
    if bytes >= pow1024(5) {
        5
    } else if bytes >= pow1024(4) {
        4
    } else if bytes >= pow1024(3) {
        3
    } else if bytes >= pow1024(2) {
        2
    } else if bytes >= pow1024(1) {
        1
    } else {
        0
    }
}

/// The unit suffix for scale `k`.
pub open spec fn unit_chars(k: nat) -> Seq<char> {
    if k == 0 {
        seq!['B']
    } else if k == 1 {
        seq!['K', 'B']
    } else if k == 2 {
        seq!['M', 'B']
    } else if k == 3 {
        seq!['G', 'B']
    } else if k == 4 {
        seq!['T', 'B']
    } else {
        seq!['P', 'B']
    }
}

/// `n / d` rounded to the nearest integer, ties to the even neighbour —
/// the rounding used when a binary fraction is printed with fixed
/// precision.
pub open spec fn round_half_even(n: nat, d: nat) -> nat
    recommends
        d > 0,
{
    let q = n / d;
    let r = n % d;
    if 2 * r < d {
        q
    } else if 2 * r > d {
        q + 1
    } else if q % 2 == 0 {
        q
    } else {
        q + 1
    }
}

/// The human-readable rendering of a byte count: plain bytes up to 1023,
/// then the value scaled by the largest fitting power of 1024, with one
/// decimal place while the scaled value is below ten and none from there
/// on.
pub open spec fn human_size_chars(bytes: nat) -> Seq<char> {
    let k = size_unit_index(bytes);
    if bytes == 0 {
        seq!['0', 'B']
    } else if k == 0 {
        spec_decimal(bytes) + seq!['B']
    } else if bytes < 10 * pow1024(k) {
        let t = round_half_even(10 * bytes, pow1024(k));
        spec_decimal(t / 10) + seq!['.'] + seq![spec_digit_char(t % 10)] + unit_chars(k)
    } else {
        spec_decimal(round_half_even(bytes, pow1024(k))) + unit_chars(k)
    }
}

proof fn lemma_pow1024_values()
    ensures
        pow1024(0) == 1,
        pow1024(1) == 1024,
        pow1024(2) == 0x100000,
        pow1024(3) == 0x40000000,
        pow1024(4) == 0x10000000000,
        pow1024(5) == 0x4000000000000,
{
    reveal_with_fuel(pow1024, 6);
}

fn digit_str(d: u64) -> (r: &'static str)
    requires
        d < 10,
    ensures
        r@ == seq![spec_digit_char(d as nat)],
{
    proof {
        reveal_strlit("0");
        reveal_strlit("1");
        reveal_strlit("2");
        reveal_strlit("3");
        reveal_strlit("4");
        reveal_strlit("5");
        reveal_strlit("6");
        reveal_strlit("7");
        reveal_strlit("8");
        reveal_strlit("9");
    }
    if d == 0 {
        "0"
    } else if d == 1 {
        "1"
    } else if d == 2 {
        "2"
    } else if d == 3 {
        "3"
    } else if d == 4 {
        "4"
    } else if d == 5 {
        "5"
    } else if d == 6 {
        "6"
    } else if d == 7 {
        "7"
    } else if d == 8 {
        "8"
    } else {
        "9"
    }
}

fn decimal_string(n: u64) -> (r: String)
    ensures
        r@ == spec_decimal(n as nat),
    decreases n,
{
    if n < 10 {
        digit_str(n).to_owned()
    } else {
        let mut s = decimal_string(n / 10);
        s.append(digit_str(n % 10));
        proof {
            assert(s@ =~= spec_decimal(n as nat));
        }
        s
    }
}

fn unit_str(k: u64) -> (r: &'static str)
    requires
        1 <= k <= 5,
    ensures
        r@ == unit_chars(k as nat),
{
    proof {
        reveal_strlit("KB");
        reveal_strlit("MB");
        reveal_strlit("GB");
        reveal_strlit("TB");
        reveal_strlit("PB");
    }
    if k == 1 {
        "KB"
    } else if k == 2 {
        "MB"
    } else if k == 3 {
        "GB"
    } else if k == 4 {
        "TB"
    } else {
        "PB"
    }
}

fn round_half_even_u64(n: u128, d: u128) -> (r: u64)
    requires
        1024 <= d <= 0x4000000000000,
        n <= 10 * (u64::MAX as nat),
    ensures
        r as nat == round_half_even(n as nat, d as nat),
{
    let q = n / d;
    let rem = n % d;
    proof {
        vstd::arithmetic::div_mod::lemma_div_is_ordered_by_denominator(n as int, 1024, d as int);
        assert(n as int / 1024 < u64::MAX as int);
        assert(q + 1 <= u64::MAX as u128);
    }
    let rounded: u128 = if 2 * rem < d {
        q
    } else if 2 * rem > d {
        q + 1
    } else if q % 2 == 0 {
        q
    } else {
        q + 1
    };
    rounded as u64
}

/// Renders a byte count on the scale of the largest power of 1024 it
/// reaches: `0` becomes `"0B"`, `1536` becomes `"1.5KB"`, `10240` becomes
/// `"10KB"`.
pub fn format_human_readable_size(bytes: u64) -> (r: String)
    ensures
        r@ == human_size_chars(bytes as nat),
{
    proof {
        lemma_pow1024_values();
        reveal_strlit("0B");
        reveal_strlit("B");
        reveal_strlit(".");
    }
    if bytes == 0 {
        return "0B".to_owned();
    }
    let k: u64 = if bytes >= 0x4000000000000 {
        5
    } else if bytes >= 0x10000000000 {
        4
    } else if bytes >= 0x40000000 {
        3
    } else if bytes >= 0x100000 {
        2
    } else if bytes >= 1024 {
        1
    } else {
        0
    };
    proof {
        assert(k as nat == size_unit_index(bytes as nat));
    }
    if k == 0 {
        let mut s = decimal_string(bytes);
        s.append("B");
        proof {
            assert(s@ =~= human_size_chars(bytes as nat));
        }
        return s;
    }
    let p: u64 = if k == 1 {
        1024
    } else if k == 2 {
        0x100000
    } else if k == 3 {
        0x40000000
    } else if k == 4 {
        0x10000000000
    } else {
        0x4000000000000
    };
    proof {
        assert(p as nat == pow1024(k as nat));
    }
    if bytes < 10 * p {
        let t = round_half_even_u64((bytes as u128) * 10, p as u128);
        proof {
            assert(t as nat == round_half_even(10 * (bytes as nat), pow1024(k as nat)));
        }
        let mut s = decimal_string(t / 10);
        s.append(".");
        s.append(digit_str(t % 10));
        s.append(unit_str(k));
        proof {
            assert(s@ =~= human_size_chars(bytes as nat));
        }
        s
    } else {
        let t = round_half_even_u64(bytes as u128, p as u128);
        let mut s = decimal_string(t);
        s.append(unit_str(k));
        proof {
            assert(s@ =~= human_size_chars(bytes as nat));
        }
        s
    }
}

} // verus!
