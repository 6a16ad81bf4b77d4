//! Output rendering: one line per ranked entry, the token, one space,
//! the decimal count, a terminating newline.

use vstd::prelude::*;
use crate::rank::entry_views;

verus! {

/// The digit character for a value below ten.
pub open spec fn digit_char(d: nat) -> char
    recommends
        d < 10,
{
    ((48 + d) as u8) as char
}

/// The decimal digit string of `n`, most significant digit first.
pub open spec fn dec_str(n: nat) -> Seq<char>
    decreases n,
{
    if n < 10 {
        seq![digit_char(n)]
    } else {
        dec_str(n / 10).push(digit_char(n % 10))
    }
}

/// Renders `n` in decimal.
pub fn format_count(n: u64) -> (r: String)
    ensures
        r@ == dec_str(n as nat),
    decreases n,
{
    let digits = "0123456789";
    proof {
        reveal_strlit("0123456789");
    }
    let d = (n % 10) as usize;
    let last = digits.substring_char(d, d + 1);
    proof {
        assert(last@ =~= seq![digit_char((n % 10) as nat)]) by {
            vstd::utf8::char_u32_cast(digits@[d as int], (48 + d) as u32);
        }
    }
    if n < 10 {
        last.to_owned()
    } else {
        let mut high = format_count(n / 10);
        high.append(last);
        proof {
            assert(high@ =~= dec_str(n as nat));
        }
        high
    }
}

/// The output line for one entry.
pub open spec fn line_of(e: (Seq<char>, u64)) -> Seq<char> {
    e.0 + seq![' '] + dec_str(e.1 as nat) + seq!['\n']
}

/// The whole output text for a ranked entry sequence.
pub open spec fn rendered(s: Seq<(Seq<char>, u64)>) -> Seq<char>
    decreases s.len(),
{
    if s.len() == 0 {
        Seq::empty()
    } else {
        line_of(s[0]) + rendered(s.drop_first())
    }
}

/// Renders the ranked entries as the program's output text.  Identical
/// entry sequences render to identical bytes.
pub fn render(entries: &Vec<(String, u64)>) -> (r: String)
    ensures
        r@ == rendered(entry_views(entries@)),
{
    let ghost ev = entry_views(entries@);
    let mut out = String::new();
    let n = entries.len();
    let mut i: usize = 0;
    proof {
        assert(ev.skip(0) =~= ev);
        assert(out@ + rendered(ev.skip(0)) =~= rendered(ev));
    }
    while i < n
        invariant
            i <= n,
            n == entries@.len(),
            ev == entry_views(entries@),
            out@ + rendered(ev.skip(i as int)) == rendered(ev),
        decreases n - i,
    {
        let ghost rest = ev.skip(i as int);
        proof {
            assert(rest[0] == ev[i as int]);
            assert(rest.drop_first() =~= ev.skip(i as int + 1));
        }
        let ghost out0 = out@;
        let e = &entries[i];
        let count = format_count(e.1);
        out.append(e.0.as_str());
        out.append(" ");
        out.append(count.as_str());
        out.append("\n");
        proof {
            reveal_strlit(" ");
            reveal_strlit("\n");
            assert(" "@ =~= seq![' ']);
            assert("\n"@ =~= seq!['\n']);
            assert(ev[i as int] == (entries@[i as int].0@, entries@[i as int].1));
            assert(out@ =~= out0 + line_of(ev[i as int]));
            assert(rendered(rest) == line_of(rest[0]) + rendered(rest.drop_first()));
            assert(out@ + rendered(ev.skip(i as int + 1)) =~= rendered(ev));
        }
        i += 1;
    }
    proof {
        assert(ev.skip(n as int) =~= Seq::<(Seq<char>, u64)>::empty());
        assert(out@ =~= out@ + rendered(ev.skip(n as int)));
    }
    out
}

} // verus!
