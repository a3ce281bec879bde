//! Rendering of latency figures with an automatically chosen time unit:
//! microseconds verbatim, milliseconds and seconds scaled to two decimal
//! places (rounding half away from zero).

use vstd::prelude::*;
use crate::strutil::{spec_dec_digits, spec_pad_dec, append_dec_u64, append_pad_dec_u64, u64_to_dec};

verus! {

/// `us / div`, rounded half up, rendered with two decimal places.
pub open spec fn spec_fixed2(us: int, div: int) -> Seq<char> {
    let scaled = (us * 100 + div / 2) / div;
    spec_dec_digits(scaled / 100) + seq!['.'] + spec_pad_dec(scaled % 100, 2)
}

fn fixed2(us: u64, div: u64) -> (r: String)
    requires
        div == 1_000 || div == 1_000_000,
    ensures
        r@ == spec_fixed2(us as int, div as int),
{
    proof {
        assert((us as int) * 100 + (div as int) / 2 < (div as int) * 0x10000000000000000int) by (nonlinear_arith)
            requires
                us as int <= 0xFFFFFFFFFFFFFFFFint,
                div as int == 1_000 || div as int == 1_000_000,
        ;
        vstd::arithmetic::div_mod::lemma_multiply_divide_lt(
            (us as int) * 100 + (div as int) / 2,
            div as int,
            0x10000000000000000int,
        );
        vstd::arithmetic::div_mod::lemma_div_pos_is_pos(
            (us as int) * 100 + (div as int) / 2,
            div as int,
        );
    }
    let scaled: u128 = (us as u128 * 100 + (div as u128) / 2) / (div as u128);
    let whole: u64 = (scaled / 100) as u64;
    let frac: u64 = (scaled % 100) as u64;
    let mut out = String::new();
    append_dec_u64(&mut out, whole);
    proof {
        reveal_strlit(".");
    }
    out.append(".");
    append_pad_dec_u64(&mut out, frac, 2);
    proof {
        assert(Seq::<char>::empty() + spec_dec_digits(whole as int) + "."@ + spec_pad_dec(
            frac as int,
            2,
        ) =~= spec_dec_digits(whole as int) + seq!['.'] + spec_pad_dec(frac as int, 2));
    }
    out
}

/// A latency with its display unit: seconds at a million microseconds and
/// beyond, milliseconds at a thousand, microseconds verbatim below that.
/// Scaled figures carry two decimal places, rounded half up.
pub fn format_latency(us: u64) -> (r: (String, &'static str))
    ensures
        us >= 1_000_000 ==> r.1@ == "s"@ && r.0@ == spec_fixed2(us as int, 1_000_000),
        1_000 <= us < 1_000_000 ==> r.1@ == "ms"@ && r.0@ == spec_fixed2(us as int, 1_000),
        us < 1_000 ==> r.1@ == "us"@ && r.0@ == spec_dec_digits(us as int),
{
    if us >= 1_000_000 {
        (fixed2(us, 1_000_000), "s")
    } else if us >= 1_000 {
        (fixed2(us, 1_000), "ms")
    } else {
        (u64_to_dec(us), "us")
    }
}

/// A latency range with one display unit for both ends, chosen by the
/// range's upper end as in `format_latency`.
pub fn format_latency_range(start_us: u64, end_us: u64) -> (r: (String, String, &'static str))
    ensures
        end_us >= 1_000_000 ==> r.2@ == "s"@ && r.0@ == spec_fixed2(start_us as int, 1_000_000)
            && r.1@ == spec_fixed2(end_us as int, 1_000_000),
        1_000 <= end_us < 1_000_000 ==> r.2@ == "ms"@ && r.0@ == spec_fixed2(
            start_us as int,
            1_000,
        ) && r.1@ == spec_fixed2(end_us as int, 1_000),
        end_us < 1_000 ==> r.2@ == "us"@ && r.0@ == spec_dec_digits(start_us as int) && r.1@
            == spec_dec_digits(end_us as int),
{
    if end_us >= 1_000_000 {
        (fixed2(start_us, 1_000_000), fixed2(end_us, 1_000_000), "s")
    } else if end_us >= 1_000 {
        (fixed2(start_us, 1_000), fixed2(end_us, 1_000), "ms")
    } else {
        (u64_to_dec(start_us), u64_to_dec(end_us), "us")
    }
}

} // verus!
