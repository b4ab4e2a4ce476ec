use vstd::prelude::*;

verus! {

/// The character of a decimal digit.
pub open spec fn digit_char(d: nat) -> char {
    if d == 0 { '0' }
    else if d == 1 { '1' }
    else if d == 2 { '2' }
    else if d == 3 { '3' }
    else if d == 4 { '4' }
    else if d == 5 { '5' }
    else if d == 6 { '6' }
    else if d == 7 { '7' }
    else if d == 8 { '8' }
    else { '9' }
}

/// The decimal notation of `x`, as `format!("{}", x)` writes it.
pub open spec fn decimal(x: nat) -> Seq<char>
    decreases x,
{
    if x < 10 {
        seq![digit_char(x)]
    } else {
        decimal(x / 10).push(digit_char(x % 10))
    }
}

/// The low `width` bits of `x`, most significant first; for `x < 2^width`
/// this is `format!("{:0>width$b}", x)`.
pub open spec fn binary(x: nat, width: nat) -> Seq<char>
    decreases width,
{
    if width == 0 {
        Seq::empty()
    } else {
        binary(x / 2, (width - 1) as nat).push(if x % 2 == 1 { '1' } else { '0' })
    }
}

fn digit_str(d: usize) -> (s: &'static str)
    requires
        d < 10,
    ensures
        s@ == seq![digit_char(d as nat)],
{
    proof {
        reveal_strlit("0");
        reveal_strlit("1");
        reveal_strlit("2");
        reveal_strlit("3");
        reveal_strlit("4");
        reveal_strlit("5");
        reveal_strlit("6");
        reveal_strlit("7");
        reveal_strlit("8");
        reveal_strlit("9");
    }
    match d {
        0 => "0",
        1 => "1",
        2 => "2",
        3 => "3",
        4 => "4",
        5 => "5",
        6 => "6",
        7 => "7",
        8 => "8",
        9 => "9",
        _ => "9",
    }
}

/// `format!("{}", x)`
pub fn decimal_string(x: usize) -> (s: String)
    ensures
        s@ == decimal(x as nat),
    decreases x,
{
    if x < 10 {
        let mut s = String::new();
        s.append(digit_str(x));
        s
    } else {
        let mut s = decimal_string(x / 10);
        s.append(digit_str(x % 10));
        s
    }
}

/// `format!("{:0>width$b}", x)` for `x < 2^width`: the index of a basis state as
/// a bit string, qubit 0 first.
pub fn binary_string(x: usize, width: usize) -> (s: String)
    ensures
        s@ == binary(x as nat, width as nat),
    decreases width,
{
    if width == 0 {
        String::new()
    } else {
        let mut s = binary_string(x / 2, width - 1);
        proof {
            reveal_strlit("0");
            reveal_strlit("1");
        }
        if x % 2 == 1 {
            s.append("1");
        } else {
            s.append("0");
        }
        s
    }
}

/// Every character of `binary(x, w)` is a binary digit.
pub proof fn lemma_binary_digits(x: nat, w: nat)
    ensures
        binary(x, w).len() == w,
        forall|i: int| 0 <= i < w ==> #[trigger] binary(x, w)[i] == '0' || binary(x, w)[i] == '1',
    decreases w,
{
    if w > 0 {
        lemma_binary_digits(x / 2, (w - 1) as nat);
    }
}

/// Distinct numbers below `2^w` have distinct `w`-bit strings.
pub proof fn lemma_binary_injective(x: nat, y: nat, w: nat)
    requires
        x < vstd::arithmetic::power2::pow2(w),
        y < vstd::arithmetic::power2::pow2(w),
        binary(x, w) == binary(y, w),
    ensures
        x == y,
    decreases w,
{
    if w == 0 {
        vstd::arithmetic::power2::lemma2_to64();
    } else {
        let bx = binary(x / 2, (w - 1) as nat);
        let by = binary(y / 2, (w - 1) as nat);
        lemma_binary_digits(x / 2, (w - 1) as nat);
        lemma_binary_digits(y / 2, (w - 1) as nat);
        assert(binary(x, w).last() == (if x % 2 == 1 { '1' } else { '0' }));
        assert(binary(y, w).last() == (if y % 2 == 1 { '1' } else { '0' }));
        assert(x % 2 == y % 2);
        assert(bx =~= binary(x, w).drop_last());
        assert(by =~= binary(y, w).drop_last());
        vstd::arithmetic::power2::lemma_pow2_unfold(w);
        lemma_binary_injective(x / 2, y / 2, (w - 1) as nat);
    }
}

} // verus!
