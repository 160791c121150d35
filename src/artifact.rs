//! Names inside a job's working directory, and the frame size handed to the encoder.
use vstd::prelude::*;
use vstd::string::StringExecFns;

verus! {

/// The decimal digit for `d`, below ten.
pub open spec fn digit_char(d: nat) -> char {
    if d == 0 {
        '0'
    } else if d == 1 {
        '1'
    } else if d == 2 {
        '2'
    } else if d == 3 {
        '3'
    } else if d == 4 {
        '4'
    } else if d == 5 {
        '5'
    } else if d == 6 {
        '6'
    } else if d == 7 {
        '7'
    } else if d == 8 {
        '8'
    } else {
        '9'
    }
}

/// `n` written in decimal, without leading zeros.
pub open spec fn decimal(n: nat) -> Seq<char>
    decreases n,
{
    if n < 10 {
        seq![digit_char(n)]
    } else {
        decimal(n / 10).push(digit_char(n % 10))
    }
}

/// `s` with zeros in front up to `width` characters.
pub open spec fn zero_padded(s: Seq<char>, width: nat) -> Seq<char> {
    if s.len() >= width {
        s
    } else {
        Seq::new((width - s.len()) as nat, |i: int| '0') + s
    }
}

/// The name of the raw image of frame `n`: `out_`, the index in at least five
/// digits, `.rgba`.
pub open spec fn frame_name(n: nat) -> Seq<char> {
    "out_"@ + zero_padded(decimal(n), 5) + ".rgba"@
}

fn digit_str(d: usize) -> (r: &'static str)
    requires
        d < 10,
    ensures
        r@ == seq![digit_char(d as nat)],
{
    proof {
        reveal_strlit("0");
        reveal_strlit("1");
        reveal_strlit("2");
        reveal_strlit("3");
        reveal_strlit("4");
        reveal_strlit("5");
        reveal_strlit("6");
        reveal_strlit("7");
        reveal_strlit("8");
        reveal_strlit("9");
    }
    if d == 0 {
        "0"
    } else if d == 1 {
        "1"
    } else if d == 2 {
        "2"
    } else if d == 3 {
        "3"
    } else if d == 4 {
        "4"
    } else if d == 5 {
        "5"
    } else if d == 6 {
        "6"
    } else if d == 7 {
        "7"
    } else if d == 8 {
        "8"
    } else {
        "9"
    }
}

fn push_decimal(s: &mut String, n: usize)
    ensures
        final(s)@ == old(s)@ + decimal(n as nat),
    decreases n,
{
    if n >= 10 {
        push_decimal(s, n / 10);
    }
    s.append(digit_str(n % 10));
    assert(final(s)@ =~= old(s)@ + decimal(n as nat));
}

fn decimal_len(n: usize) -> (r: usize)
    ensures
        r == decimal(n as nat).len(),
    decreases n,
{
    if n < 10 {
        1
    } else {
        proof {
            lemma_decimal_len_small((n / 10) as nat);
        }
        decimal_len(n / 10) + 1
    }
}

proof fn lemma_decimal_len_small(n: nat)
    ensures
        decimal(n).len() <= n + 1,
    decreases n,
{
    if n >= 10 {
        lemma_decimal_len_small(n / 10);
    }
}

/// The file name of the raw image of frame `frame_n`.
pub fn frame_file_name(frame_n: usize) -> (r: String)
    ensures
        r@ == frame_name(frame_n as nat),
{
    let mut s = String::from_str("out_");
    let len = decimal_len(frame_n);
    let mut k: usize = len;
    while k < 5
        invariant
            len <= k <= 5 || (len > 5 && k == len),
            len == decimal(frame_n as nat).len(),
            s@ == "out_"@ + Seq::new((k - len) as nat, |i: int| '0'),
        decreases 5 - k,
    {
        proof {
            reveal_strlit("0");
        }
        s.append("0");
        assert(s@ =~= "out_"@ + Seq::new((k + 1 - len) as nat, |i: int| '0'));
        k = k + 1;
    }
    let ghost pad = Seq::new((k - len) as nat, |i: int| '0');
    push_decimal(&mut s, frame_n);
    s.append(".rgba");
    assert(zero_padded(decimal(frame_n as nat), 5) =~= pad + decimal(frame_n as nat));
    assert(s@ =~= frame_name(frame_n as nat));
    s
}

/// The frame size as the encoder takes it: width, `x`, height.
pub fn video_size_arg(width: u16, height: u16) -> (r: String)
    ensures
        r@ == decimal(width as nat) + "x"@ + decimal(height as nat),
{
    let mut s = String::new();
    push_decimal(&mut s, width as usize);
    s.append("x");
    push_decimal(&mut s, height as usize);
    assert(s@ =~= decimal(width as nat) + "x"@ + decimal(height as nat));
    s
}

} // verus!
