use vstd::prelude::*;

verus! {

/// ASCII upper-casing of one character; every other character is kept.
#[verifier::allow_in_spec]
pub fn upper_char(c: char) -> char
    returns
        (if 97 <= c as u32 && c as u32 <= 122 {
            (((c as u32) - 32) as u8) as char
        } else {
            c
        }),
{
    let u = c as u32;
    if 97 <= u && u <= 122 {
        ((u - 32) as u8) as char
    } else {
        c
    }
}

/// The sequence with every character ASCII upper-cased.
pub open spec fn seq_upper(s: Seq<char>) -> Seq<char> {
    s.map_values(|c: char| upper_char(c))
}

/// True when the two strings are equal up to ASCII case.
pub fn eq_ignore_case(a: &str, b: &str) -> (r: bool)
    ensures
        r == (seq_upper(a@) == seq_upper(b@)),
{
    let a_len = a.unicode_len();
    let b_len = b.unicode_len();
    if a_len != b_len {
        assert(seq_upper(a@).len() == a@.len());
        assert(seq_upper(b@).len() == b@.len());
        return false;
    }
    let mut i: usize = 0;
    while i < a_len
        invariant
            i <= a_len,
            a_len == a@.len(),
            b_len == b@.len(),
            a_len == b_len,
            forall|j: int| 0 <= j < i ==> upper_char(a@[j]) == upper_char(b@[j]),
        decreases a_len - i,
    {
        let ca = a.get_char(i);
        let cb = b.get_char(i);
        if upper_char(ca) != upper_char(cb) {
            assert(seq_upper(a@)[i as int] != seq_upper(b@)[i as int]);
            return false;
        }
        i = i + 1;
    }
    assert(seq_upper(a@) =~= seq_upper(b@));
    true
}

/// True for the ten ASCII digit characters.
pub open spec fn is_digit_char(c: char) -> bool {
    48 <= c as u32 <= 57
}

/// The numeric value of an ASCII digit character.
pub open spec fn digit_val(c: char) -> u8 {
    ((c as u32 - 48) as u8)
}

/// The ASCII digit character of a value below ten.
pub open spec fn digit_char(d: u8) -> char
    recommends
        d <= 9,
{
    ((d + 48) as u8) as char
}

/// The decimal digits of `n`, most significant first.
pub open spec fn dec_str(n: nat) -> Seq<char>
    decreases n,
{
    if n < 10 {
        seq![digit_char(n as u8)]
    } else {
        dec_str(n / 10) + seq![digit_char((n % 10) as u8)]
    }
}

/// Appends one decimal digit to `out`.
fn push_digit(out: &mut String, d: u64)
    requires
        d <= 9,
    ensures
        final(out)@ == old(out)@ + seq![digit_char(d as u8)],
{
    proof {
        reveal_strlit("0");
        reveal_strlit("1");
        reveal_strlit("2");
        reveal_strlit("3");
        reveal_strlit("4");
        reveal_strlit("5");
        reveal_strlit("6");
        reveal_strlit("7");
        reveal_strlit("8");
        reveal_strlit("9");
    }
    match d {
        0 => out.append("0"),
        1 => out.append("1"),
        2 => out.append("2"),
        3 => out.append("3"),
        4 => out.append("4"),
        5 => out.append("5"),
        6 => out.append("6"),
        7 => out.append("7"),
        8 => out.append("8"),
        _ => out.append("9"),
    }
    proof {
        assert(out@ =~= old(out)@ + seq![digit_char(d as u8)]);
    }
}

/// Appends the decimal rendering of `n` to `out`.
pub fn push_u64(out: &mut String, n: u64)
    ensures
        final(out)@ == old(out)@ + dec_str(n as nat),
    decreases n,
{
    if n < 10 {
        push_digit(out, n);
    } else {
        push_u64(out, n / 10);
        push_digit(out, n % 10);
        proof {
            assert(out@ =~= old(out)@ + dec_str(n as nat));
        }
    }
}

/// The decimal rendering of `n`.
pub fn u64_to_string(n: u64) -> (r: String)
    ensures
        r@ == dec_str(n as nat),
{
    let mut out = String::new();
    push_u64(&mut out, n);
    proof {
        assert(out@ =~= dec_str(n as nat));
    }
    out
}

/// Splits on spaces, dropping empty pieces; `cur` is the token read so far.
pub open spec fn tok_rec(s: Seq<char>, cur: Seq<char>) -> Seq<Seq<char>>
    decreases s.len(),
{
    if s.len() == 0 {
        if cur.len() == 0 {
            Seq::empty()
        } else {
            seq![cur]
        }
    } else if s[0] == ' ' {
        if cur.len() == 0 {
            tok_rec(s.skip(1), Seq::empty())
        } else {
            seq![cur] + tok_rec(s.skip(1), Seq::empty())
        }
    } else {
        tok_rec(s.skip(1), cur.push(s[0]))
    }
}

/// The space-separated words of `s`, in order, without empty words.
pub open spec fn spec_tokenize(s: Seq<char>) -> Seq<Seq<char>> {
    tok_rec(s, Seq::empty())
}

/// Splits a command line into its space-separated words.
pub fn tokenize(s: &str) -> (out: Vec<String>)
    ensures
        out.deep_view() == spec_tokenize(s@),
{
    let len = s.unicode_len();
    let mut out: Vec<String> = Vec::new();
    let mut start: usize = 0;
    let mut i: usize = 0;
    proof {
        assert(s@.skip(0) =~= s@);
        assert(s@.subrange(0, 0) =~= Seq::<char>::empty());
        assert(out.deep_view() + tok_rec(s@, Seq::empty()) =~~= tok_rec(s@, Seq::empty()));
    }
    while i < len
        invariant
            start <= i <= len,
            len == s@.len(),
            out.deep_view() + tok_rec(s@.skip(i as int), s@.subrange(start as int, i as int))
                == spec_tokenize(s@),
        decreases len - i,
    {
        let ghost pre = out.deep_view();
        let ghost cur = s@.subrange(start as int, i as int);
        let ghost tail = s@.skip(i as int);
        proof {
            assert(tail[0] == s@[i as int]);
            assert(tail.skip(1) =~= s@.skip(i as int + 1));
        }
        let c = s.get_char(i);
        if c == ' ' {
            if start < i {
                let tok = s.substring_char(start, i);
                out.push(String::from_str(tok));
                proof {
                    assert(out.deep_view() =~~= pre.push(cur));
                    assert(pre.push(cur) =~~= pre + seq![cur]);
                    assert(tok_rec(tail, cur) == seq![cur] + tok_rec(
                        s@.skip(i as int + 1),
                        Seq::empty(),
                    ));
                    assert((pre + seq![cur]) + tok_rec(s@.skip(i as int + 1), Seq::empty())
                        =~~= pre + (seq![cur] + tok_rec(s@.skip(i as int + 1), Seq::empty())));
                }
            } else {
                proof {
                    assert(cur.len() == 0);
                }
            }
            start = i + 1;
            i = i + 1;
            proof {
                assert(s@.subrange(start as int, i as int) =~= Seq::<char>::empty());
            }
        } else {
            i = i + 1;
            proof {
                assert(s@.subrange(start as int, i as int) =~= cur.push(s@[i - 1]));
            }
        }
    }
    proof {
        assert(s@.skip(len as int) =~= Seq::<char>::empty());
    }
    if start < len {
        let ghost pre = out.deep_view();
        let ghost cur = s@.subrange(start as int, len as int);
        let tok = s.substring_char(start, len);
        out.push(String::from_str(tok));
        proof {
            assert(out.deep_view() =~~= pre.push(cur));
            assert(pre.push(cur) =~~= pre + seq![cur]);
        }
    } else {
        proof {
            assert(out.deep_view() + Seq::<Seq<char>>::empty() =~~= out.deep_view());
        }
    }
    out
}

} // verus!
