use vstd::prelude::*;
use vstd::string::StringExecFns;

verus! {

/// The decimal digit character for one value below ten.
pub open spec fn dec_digit(d: nat) -> char {
    ((48 + d) as u8) as char
}

/// The decimal rendering of a number, most significant digit first.
pub open spec fn dec_str_of(n: nat) -> Seq<char>
    decreases n,
{
    if n < 10 {
        seq![dec_digit(n)]
    } else {
        dec_str_of(n / 10).push(dec_digit(n % 10))
    }
}

/// What the badge shows inside the bar: the match number in parentheses, or
/// nothing.
pub open spec fn svg_index_of(index: Option<usize>) -> Seq<char> {
    match index {
        Option::None => Seq::empty(),
        Option::Some(i) => seq!['('] + dec_str_of(i as nat) + seq![')'],
    }
}

/// The full badge markup: an outlined bar, a filled bar whose width scales
/// with the ratio, and the optional index label.
pub open spec fn svg_markup(color: Seq<char>, ratio: int, index: Option<usize>) -> Seq<char> {
    "<svg width=\"60\" height=\"18\">\n    <rect width=\"60\" height=\"18\" style=\"fill:rgba(0,0,0,0);stroke-width:4;stroke:"@
        + color + "\"></rect>\n    <rect width=\""@ + dec_str_of((60 * ratio / 100) as nat)
        + "\" height=\"18\" style=\"fill:"@ + color
        + ";\"></rect>\n    <text x=\"50%\" y=\"50%\" dominant-baseline=\"middle\" text-anchor=\"middle\" fill=\""@
        + color + "\" font-size=\"12\">"@ + svg_index_of(index) + "</text>\n</svg>"@
}

fn digit_str(d: u64) -> (r: &'static str)
    requires
        d < 10,
    ensures
        r@ == seq![dec_digit(d as nat)],
{
    if d == 0 {
        proof {
            reveal_strlit("0");
            assert("0"@ =~= seq![dec_digit(0)]);
        }
        return "0";
    }
    if d == 1 {
        proof {
            reveal_strlit("1");
            assert("1"@ =~= seq![dec_digit(1)]);
        }
        return "1";
    }
    if d == 2 {
        proof {
            reveal_strlit("2");
            assert("2"@ =~= seq![dec_digit(2)]);
        }
        return "2";
    }
    if d == 3 {
        proof {
            reveal_strlit("3");
            assert("3"@ =~= seq![dec_digit(3)]);
        }
        return "3";
    }
    if d == 4 {
        proof {
            reveal_strlit("4");
            assert("4"@ =~= seq![dec_digit(4)]);
        }
        return "4";
    }
    if d == 5 {
        proof {
            reveal_strlit("5");
            assert("5"@ =~= seq![dec_digit(5)]);
        }
        return "5";
    }
    if d == 6 {
        proof {
            reveal_strlit("6");
            assert("6"@ =~= seq![dec_digit(6)]);
        }
        return "6";
    }
    if d == 7 {
        proof {
            reveal_strlit("7");
            assert("7"@ =~= seq![dec_digit(7)]);
        }
        return "7";
    }
    if d == 8 {
        proof {
            reveal_strlit("8");
            assert("8"@ =~= seq![dec_digit(8)]);
        }
        return "8";
    }
    proof {
        reveal_strlit("9");
        assert("9"@ =~= seq![dec_digit(9)]);
    }
    "9"
}

/// Render a number in decimal.
fn u64_to_string(n: u64) -> (r: String)
    ensures
        r@ == dec_str_of(n as nat),
    decreases n,
{
    if n < 10 {
        String::from_str(digit_str(n))
    } else {
        let mut s = u64_to_string(n / 10);
        s.append(digit_str(n % 10));
        proof {
            assert(dec_str_of((n / 10) as nat) + seq![dec_digit((n % 10) as nat)] =~= dec_str_of(
                (n / 10) as nat,
            ).push(dec_digit((n % 10) as nat)));
        }
        s
    }
}

/// The colored match badge with an index label: a fixed-size bar outline,
/// a fill whose width is `ratio` percent of the bar, and the index in
/// parentheses, all in the given color.
pub fn gen_svg_with_index(color: &str, ratio: i32, index: Option<usize>) -> (r: String)
    requires
        0 <= ratio,
        60 * ratio <= i32::MAX,
    ensures
        r@ == svg_markup(color@, ratio as int, index),
{
    let scaled: u32 = (60 * ratio) as u32;
    let filled: u32 = scaled / 100;
    let mut s = String::new();
    s.append(
        "<svg width=\"60\" height=\"18\">\n    <rect width=\"60\" height=\"18\" style=\"fill:rgba(0,0,0,0);stroke-width:4;stroke:",
    );
    s.append(color);
    s.append("\"></rect>\n    <rect width=\"");
    let num = u64_to_string(filled as u64);
    s.append(num.as_str());
    s.append("\" height=\"18\" style=\"fill:");
    s.append(color);
    s.append(
        ";\"></rect>\n    <text x=\"50%\" y=\"50%\" dominant-baseline=\"middle\" text-anchor=\"middle\" fill=\"",
    );
    s.append(color);
    s.append("\" font-size=\"12\">");
    match index {
        Option::Some(i) => {
            s.append("(");
            let label = u64_to_string(i as u64);
            s.append(label.as_str());
            s.append(")");
            proof {
                reveal_strlit("(");
                reveal_strlit(")");
                assert("("@ =~= seq!['(']);
                assert(")"@ =~= seq![')']);
            }
        },
        Option::None => {},
    }
    s.append("</text>\n</svg>");
    proof {
        assert(s@ =~= svg_markup(color@, ratio as int, index));
    }
    s
}

/// The colored match badge without an index label.
pub fn gen_svg(color: &str, ratio: i32) -> (r: String)
    requires
        0 <= ratio,
        60 * ratio <= i32::MAX,
    ensures
        r@ == svg_markup(color@, ratio as int, Option::None),
{
    gen_svg_with_index(color, ratio, None)
}

} // verus!
