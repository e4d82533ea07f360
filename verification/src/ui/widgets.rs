//! Small pieces that the screens share.

use vstd::arithmetic::power2::{lemma2_to64, lemma_pow2_adds, pow2};
use vstd::prelude::*;
use vstd::string::*;

use crate::engine::{Act, SyncAction};
use crate::path::{file_name_of, PathBuf};
use crate::text::{self, decimal, lossy_text};
use crate::theme;

verus! {

/// The color in which the review list shows an action.
pub open spec fn color_of_action(a: Act) -> u32 {
    match a {
        Act::CreateDir(_) => theme::CREATE_DIR,
        Act::Copy(_, _) => theme::COPY,
        Act::Overwrite(_, _) => theme::OVERWRITE,
        Act::Delete(_, _) => theme::DELETE,
    }
}

/// The color in which the review list shows an action.
pub fn action_color(action: &SyncAction) -> (res: u32)
    ensures
        res == color_of_action(action@),
{
    match action {
        SyncAction::CreateDir { rel_path: _ } => theme::CREATE_DIR,
        SyncAction::Copy { rel_path: _, size: _ } => theme::COPY,
        SyncAction::Overwrite { rel_path: _, size: _ } => theme::OVERWRITE,
        SyncAction::Delete { rel_path: _, is_dir: _ } => theme::DELETE,
    }
}

/// The name under which a folder is shown: its last component, or else its path.
pub open spec fn folder_label(p: Seq<u8>) -> Seq<char> {
    match file_name_of(p) {
        Some(n) => lossy_text(n),
        None => lossy_text(p),
    }
}

/// The name under which a folder is shown: its last component, or else its path.
pub fn folder_name(p: &PathBuf) -> (res: String)
    ensures
        res@ == folder_label(p@),
{
    match p.file_name() {
        Some(n) => text::lossy(n.as_slice()),
        None => p.display(),
    }
}

// --- Byte sizes ------------------------------------------------------------

/// `a` divided by `d`, rounded to the nearest whole number; halves go to the even one.
pub open spec fn rounded_quotient(a: nat, d: nat) -> nat {
    let q = a / d;
    let r = a % d;
    if 2 * r > d || (2 * r == d && q % 2 == 1) {
        q + 1
    } else {
        q
    }
}

/// How many bits `n` has beyond the 53 that a double-precision number holds.
pub open spec fn excess_bits(n: nat) -> nat
    decreases n,
{
    if n < 0x20_0000_0000_0000 {
        0
    } else {
        1 + excess_bits(n / 2)
    }
}

/// The double-precision number nearest to `n`.
pub open spec fn to_double(n: nat) -> nat {
    rounded_quotient(n, pow2(excess_bits(n))) * pow2(excess_bits(n))
}

/// How many times `v` can be divided by 1024 before it falls below 1024, up to the
/// largest unit.
pub open spec fn unit_of(v: nat) -> nat {
    if v < 1024 {
        0
    } else if v < 1024 * 1024 {
        1
    } else if v < 1024 * 1024 * 1024 {
        2
    } else if v < 1024 * 1024 * 1024 * 1024 {
        3
    } else {
        4
    }
}

/// The size of a unit in bytes.
pub open spec fn unit_size(unit: nat) -> nat {
    if unit == 0 {
        1
    } else if unit == 1 {
        1024
    } else if unit == 2 {
        1024 * 1024
    } else if unit == 3 {
        1024 * 1024 * 1024
    } else {
        1024 * 1024 * 1024 * 1024
    }
}

/// The name of a unit.
pub open spec fn unit_name(unit: nat) -> Seq<char> {
    if unit == 0 {
        "B"@
    } else if unit == 1 {
        "KiB"@
    } else if unit == 2 {
        "MiB"@
    } else if unit == 3 {
        "GiB"@
    } else {
        "TiB"@
    }
}

/// A number of bytes in words: below 1024 as it is; else as a double-precision number
/// in the largest unit that it reaches, to one decimal.
pub open spec fn bytes_text(n: nat) -> Seq<char> {
    if n < 1024 {
        decimal(n) + " B"@
    } else {
        let v = to_double(n);
        let tenths = rounded_quotient(10 * v, unit_size(unit_of(v)));
        decimal(tenths / 10) + "."@ + decimal(tenths % 10) + " "@ + unit_name(unit_of(v))
    }
}

fn round_quotient(a: u128, d: u128) -> (res: u128)
    requires
        0 < d < 0x1_0000_0000_0000_0000,
        a < 0x1_0000_0000_0000_0000_0000,
    ensures
        res == rounded_quotient(a as nat, d as nat),
{
    let q: u128 = a / d;
    let r: u128 = a % d;
    assert(q <= a) by (nonlinear_arith)
        requires
            q == a / d,
            d > 0,
            a >= 0,
    ;
    if 2 * r > d || (2 * r == d && q % 2 == 1) {
        q + 1
    } else {
        q
    }
}

proof fn lemma_rounded_bound(a: nat, d: nat, bound: nat)
    requires
        0 < d,
        a <= bound * d,
    ensures
        rounded_quotient(a, d) <= bound,
{
    let q = a / d;
    let r = a % d;
    assert(a == d * q + r && 0 <= r < d) by (nonlinear_arith)
        requires
            d > 0,
            q == a / d,
            r == a % d,
    ;
    assert(q <= bound && (r > 0 ==> q < bound)) by (nonlinear_arith)
        requires
            a == d * q + r,
            a <= bound * d,
            0 <= r < d,
    ;
}

fn nearest_double(n: u64) -> (res: u128)
    ensures
        res == to_double(n as nat),
        res <= 0x1_0000_0000_0000_0000,
        n >= 1024 ==> res >= 1024,
{
    let mut rest: u64 = n;
    let mut unit: u128 = 1;
    let ghost mut e: nat = 0;
    proof {
        lemma2_to64();
    }
    while rest >= 0x20_0000_0000_0000
        invariant
            excess_bits(n as nat) == e + excess_bits(rest as nat),
            unit == pow2(e),
            unit * rest <= n,
            unit as int * (rest + 1) > n,
            e <= 11,
            e == 11 ==> rest < 0x20_0000_0000_0000,
            e < 11 ==> unit <= 1024,
            unit <= 2048,
            e == 10 ==> unit == 1024,
            e > 0 ==> n >= 0x20_0000_0000_0000,
            e == 0 ==> unit == 1,
        decreases rest,
    {
        proof {
            lemma_pow2_adds(e, 1);
            lemma2_to64();
            let half = rest / 2;
            assert(2 * unit * half <= n && 2 * unit * (half + 1) > n) by (nonlinear_arith)
                requires
                    unit * rest <= n,
                    unit as int * (rest + 1) > n,
                    half == rest / 2,
            ;
            e = e + 1;
            if e == 11 {
                assert(1024 * rest <= n) by (nonlinear_arith)
                    requires
                        unit * rest <= n,
                        unit == 1024,
                ;
                assert(half < 0x20_0000_0000_0000);
            }
        }
        rest = rest / 2;
        unit = unit * 2;
    }
    let q = round_quotient(n as u128, unit);
    proof {
        assert(excess_bits(n as nat) == e);
        assert(n <= 0x20_0000_0000_0000 * unit) by (nonlinear_arith)
            requires
                unit as int * (rest + 1) > n,
                rest < 0x20_0000_0000_0000,
                unit > 0,
        ;
        lemma_rounded_bound(n as nat, unit as nat, 0x20_0000_0000_0000);
    }
    assert(q * unit <= 0x20_0000_0000_0000 * 2048) by (nonlinear_arith)
        requires
            q <= 0x20_0000_0000_0000,
            unit <= 2048,
    ;
    assert(q * unit > n - unit) by (nonlinear_arith)
        requires
            q >= n as nat / unit as nat,
            unit > 0,
    ;
    q * unit
}

/// Human-readable byte size (binary units), e.g. `1.5 MiB`.
pub fn human_bytes(n: u64) -> (res: String)
    ensures
        res@ == bytes_text(n as nat),
{
    if n < 1024 {
        return text::concat(text::decimal_of(n).as_str(), " B");
    }
    let v = nearest_double(n);
    let (size, name): (u128, &str) = if v < 1024 * 1024 {
        (1024, "KiB")
    } else if v < 1024 * 1024 * 1024 {
        (1024 * 1024, "MiB")
    } else if v < 1024 * 1024 * 1024 * 1024 {
        (1024 * 1024 * 1024, "GiB")
    } else {
        (1024 * 1024 * 1024 * 1024, "TiB")
    };
    let tenths = round_quotient(10 * v, size);
    proof {
        lemma_rounded_bound((10 * v) as nat, size as nat, 0x1000_0000_0000_0000);
    }
    let tenths = tenths as u64;
    let mut s = text::decimal_of(tenths / 10);
    s.append(".");
    s.append(text::decimal_of(tenths % 10).as_str());
    s.append(" ");
    s.append(name);
    s
}

// --- Laws ------------------------------------------------------------------

/// A division is rounded to the nearest whole number.
pub proof fn law_quotients_are_nearest(a: nat, d: nat)
    requires
        d > 0,
    ensures
        2 * (rounded_quotient(a, d) * d) <= 2 * a + d,
        2 * a <= 2 * (rounded_quotient(a, d) * d) + d,
{
    let q = a / d;
    let r = a % d;
    vstd::arithmetic::div_mod::lemma_fundamental_div_mod(a as int, d as int);
    assert(d * q == q * d) by (nonlinear_arith);
    assert((q + 1) * d == q * d + d) by (nonlinear_arith);
    assert(r < d) by {
        vstd::arithmetic::div_mod::lemma_mod_bound(a as int, d as int);
    }
}

/// Sizes are told apart by units of 1024: below that in bytes, as they are; else in the
/// largest unit that they reach, and to the nearest tenth of it.
pub proof fn law_sizes_are_told_in_units(n: nat)
    ensures
        n < 1024 ==> bytes_text(n) == decimal(n) + " B"@,
        1024 <= n < 0x20_0000_0000_0000 ==> exists|tenths: nat, unit: nat|
            {
                &&& bytes_text(n) == #[trigger] tenths_text(tenths, unit)
                &&& 1 <= unit <= 4
                &&& unit_size(unit) <= n
                &&& unit < 4 ==> n < 1024 * unit_size(unit)
                &&& 2 * (tenths * unit_size(unit)) <= 2 * (10 * n) + unit_size(unit)
                &&& 2 * (10 * n) <= 2 * (tenths * unit_size(unit)) + unit_size(unit)
            },
{
    if 1024 <= n < 0x20_0000_0000_0000 {
        vstd::arithmetic::power2::lemma2_to64();
        assert(excess_bits(n) == 0);
        assert(n / 1 == n && n % 1 == 0);
        assert(rounded_quotient(n, 1) == n);
        assert(to_double(n) == n) by (nonlinear_arith)
            requires
                to_double(n) == n * 1,
        ;
        let unit = unit_of(n);
        let tenths = rounded_quotient(10 * n, unit_size(unit));
        law_quotients_are_nearest(10 * n, unit_size(unit));
        assert(bytes_text(n) == tenths_text(tenths, unit));
    }
}

/// A number of tenths of a unit, in words.
pub open spec fn tenths_text(tenths: nat, unit: nat) -> Seq<char> {
    decimal(tenths / 10) + "."@ + decimal(tenths % 10) + " "@ + (if unit == 0 {
        "B"@
    } else if unit == 1 {
        "KiB"@
    } else if unit == 2 {
        "MiB"@
    } else if unit == 3 {
        "GiB"@
    } else {
        "TiB"@
    })
}

} // verus!
