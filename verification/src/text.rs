//! Byte-level text normalisation: ASCII uppercasing and stripping of
//! everything outside the capital English letters.
use vstd::prelude::*;

verus! {

/// ASCII uppercasing of one byte: `a`..`z` map to `A`..`Z`, everything else
/// stays.
pub open spec fn upper_byte(c: u8) -> u8 {
    if 97 <= c <= 122 {
        (c - 32) as u8
    } else {
        c
    }
}

/// A capital English letter `A`..`Z`.
pub open spec fn is_capital(c: u8) -> bool {
    65 <= c <= 90
}

pub open spec fn all_capitals(s: Seq<u8>) -> bool {
    forall|i: int| 0 <= i < s.len() ==> is_capital(s[i])
}

/// ASCII uppercasing followed by dropping every byte that is not a capital
/// English letter.
pub open spec fn upper_strip(s: Seq<u8>) -> Seq<u8>
    decreases s.len(),
{
    if s.len() == 0 {
        Seq::empty()
    } else {
        let c = upper_byte(s[0]);
        let rest = upper_strip(s.drop_first());
        if is_capital(c) {
            seq![c] + rest
        } else {
            rest
        }
    }
}

pub proof fn lemma_upper_strip_all_capitals(s: Seq<u8>)
    ensures
        all_capitals(upper_strip(s)),
    decreases s.len(),
{
    if s.len() > 0 {
        lemma_upper_strip_all_capitals(s.drop_first());
    }
}

proof fn lemma_upper_strip_append(a: Seq<u8>, b: Seq<u8>)
    ensures
        upper_strip(a + b) == upper_strip(a) + upper_strip(b),
    decreases a.len(),
{
    if a.len() == 0 {
        assert(a + b =~= b);
        assert(upper_strip(a) + upper_strip(b) =~= upper_strip(b));
    } else {
        lemma_upper_strip_append(a.drop_first(), b);
        assert((a + b).drop_first() =~= a.drop_first() + b);
        if is_capital(upper_byte(a[0])) {
            assert(seq![upper_byte(a[0])] + (upper_strip(a.drop_first()) + upper_strip(b)) =~= (
            seq![upper_byte(a[0])] + upper_strip(a.drop_first())) + upper_strip(b));
        }
    }
}

/// Uppercases each byte in place, leaving non-letters as they are.
pub fn uppercaseBytes(text: &Vec<u8>) -> (r: Vec<u8>)
    ensures
        r@ == text@.map_values(|c: u8| upper_byte(c)),
{
    let mut r: Vec<u8> = Vec::new();
    let mut i: usize = 0;
    while i < text.len()
        invariant
            i <= text@.len(),
            r@ =~= text@.take(i as int).map_values(|c: u8| upper_byte(c)),
        decreases text@.len() - i,
    {
        let c = text[i];
        if 97 <= c && c <= 122 {
            r.push(c - 32);
        } else {
            r.push(c);
        }
        proof {
            assert(text@.take(i + 1).map_values(|c: u8| upper_byte(c)) =~= text@.take(
                i as int,
            ).map_values(|c: u8| upper_byte(c)).push(upper_byte(text@[i as int])));
        }
        i = i + 1;
    }
    proof {
        assert(text@.take(text@.len() as int) =~= text@);
    }
    r
}

/// Whether every byte is a capital English letter.
pub fn allCapitals(text: &Vec<u8>) -> (r: bool)
    ensures
        r == all_capitals(text@),
{
    let mut i: usize = 0;
    while i < text.len()
        invariant
            i <= text@.len(),
            forall|k: int| 0 <= k < i ==> is_capital(text@[k]),
        decreases text@.len() - i,
    {
        let c = text[i];
        if c < 65 || c > 90 {
            return false;
        }
        i = i + 1;
    }
    true
}

/// Uppercases and strips a line down to its capital English letters.
pub fn normalizeToCapitals(line: &Vec<u8>) -> (r: Vec<u8>)
    ensures
        r@ == upper_strip(line@),
        all_capitals(r@),
{
    let mut r: Vec<u8> = Vec::new();
    let mut i: usize = 0;
    while i < line.len()
        invariant
            i <= line@.len(),
            r@ =~= upper_strip(line@.take(i as int)),
        decreases line@.len() - i,
    {
        let c = line[i];
        let u = if 97 <= c && c <= 122 {
            c - 32
        } else {
            c
        };
        if 65 <= u && u <= 90 {
            r.push(u);
        }
        proof {
            lemma_upper_strip_append(line@.take(i as int), seq![line@[i as int]]);
            assert(line@.take(i + 1) =~= line@.take(i as int) + seq![line@[i as int]]);
            let one = seq![line@[i as int]];
            assert(one.drop_first() =~= Seq::<u8>::empty());
            assert(upper_strip(Seq::<u8>::empty()) =~= Seq::<u8>::empty());
            assert(upper_strip(one.drop_first()) =~= Seq::<u8>::empty());
            if is_capital(upper_byte(line@[i as int])) {
                assert(upper_strip(one) =~= seq![upper_byte(one[0])] + upper_strip(
                    one.drop_first(),
                ));
                assert(upper_strip(one) =~= seq![upper_byte(line@[i as int])]);
                assert(upper_strip(line@.take(i + 1)) =~= upper_strip(line@.take(i as int)).push(
                    upper_byte(line@[i as int]),
                ));
            } else {
                assert(upper_strip(one) =~= Seq::<u8>::empty());
                assert(upper_strip(line@.take(i + 1)) =~= upper_strip(line@.take(i as int)));
            }
        }
        i = i + 1;
    }
    proof {
        assert(line@.take(line@.len() as int) =~= line@);
        lemma_upper_strip_all_capitals(line@);
    }
    r
}

/// The character for one decimal digit.
pub open spec fn digit_char(d: nat) -> char {
    if d == 0 {
        '0'
    } else if d == 1 {
        '1'
    } else if d == 2 {
        '2'
    } else if d == 3 {
        '3'
    } else if d == 4 {
        '4'
    } else if d == 5 {
        '5'
    } else if d == 6 {
        '6'
    } else if d == 7 {
        '7'
    } else if d == 8 {
        '8'
    } else {
        '9'
    }
}

/// The decimal digits of `x`, most significant first, without padding.
pub open spec fn decimal_seq(x: nat) -> Seq<char>
    decreases x,
{
    if x < 10 {
        seq![digit_char(x)]
    } else {
        decimal_seq(x / 10) + seq![digit_char(x % 10)]
    }
}

fn digitStr(d: u64) -> (r: &'static str)
    requires
        d < 10,
    ensures
        r@ == seq![digit_char(d as nat)],
{
    if d == 0 {
        proof {
            reveal_strlit("0");
        }
        let r = "0";
        proof {
            assert(r@ =~= seq![digit_char(d as nat)]);
        }
        r
    } else if d == 1 {
        proof {
            reveal_strlit("1");
        }
        let r = "1";
        proof {
            assert(r@ =~= seq![digit_char(d as nat)]);
        }
        r
    } else if d == 2 {
        proof {
            reveal_strlit("2");
        }
        let r = "2";
        proof {
            assert(r@ =~= seq![digit_char(d as nat)]);
        }
        r
    } else if d == 3 {
        proof {
            reveal_strlit("3");
        }
        let r = "3";
        proof {
            assert(r@ =~= seq![digit_char(d as nat)]);
        }
        r
    } else if d == 4 {
        proof {
            reveal_strlit("4");
        }
        let r = "4";
        proof {
            assert(r@ =~= seq![digit_char(d as nat)]);
        }
        r
    } else if d == 5 {
        proof {
            reveal_strlit("5");
        }
        let r = "5";
        proof {
            assert(r@ =~= seq![digit_char(d as nat)]);
        }
        r
    } else if d == 6 {
        proof {
            reveal_strlit("6");
        }
        let r = "6";
        proof {
            assert(r@ =~= seq![digit_char(d as nat)]);
        }
        r
    } else if d == 7 {
        proof {
            reveal_strlit("7");
        }
        let r = "7";
        proof {
            assert(r@ =~= seq![digit_char(d as nat)]);
        }
        r
    } else if d == 8 {
        proof {
            reveal_strlit("8");
        }
        let r = "8";
        proof {
            assert(r@ =~= seq![digit_char(d as nat)]);
        }
        r
    } else {
        proof {
            reveal_strlit("9");
        }
        let r = "9";
        proof {
            assert(r@ =~= seq![digit_char(d as nat)]);
        }
        r
    }
}

/// Formats `x` in decimal.
pub fn u64ToString(x: u64) -> (r: String)
    ensures
        r@ == decimal_seq(x as nat),
    decreases x,
{
    if x < 10 {
        let r = String::from_str(digitStr(x));
        proof {
            assert(r@ =~= decimal_seq(x as nat));
        }
        r
    } else {
        let mut s = u64ToString(x / 10);
        s.append(digitStr(x % 10));
        proof {
            assert(s@ =~= decimal_seq(x as nat));
        }
        s
    }
}

} // verus!
