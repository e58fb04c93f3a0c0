//! Byte-level parsing of the raw input text: splitting into lines, splitting
//! a line into whitespace-separated tokens, and reading a token as a 32-bit
//! signed integer. Lines are separated by a line feed, with a carriage
//! return stripped from the end of a terminated line, and a final line
//! ending produces no extra empty line. Tokens are separated by Unicode
//! white space, recognised by its UTF-8 byte encoding.

use vstd::prelude::*;

verus! {

/// How many bytes of white space stand at the front of `l`: the UTF-8
/// encoding of one character with the Unicode White_Space property (the six
/// ASCII ones, next line, no-break space, ogham space mark, the en-quad
/// to hair-space range, the line and paragraph separators, narrow no-break
/// space, medium mathematical space, or ideographic space), or 0 when none
/// does. In valid UTF-8 such a prefix can only start at a character
/// boundary, so this reads exactly as splitting characters on white space.
pub open spec fn ws_prefix_len(l: Seq<u8>) -> int {
    if l.len() >= 1 && (l[0] == 9 || l[0] == 10 || l[0] == 11 || l[0] == 12 || l[0] == 13 || l[0]
        == 32) {
        1
    } else if l.len() >= 2 && l[0] == 0xc2 && (l[1] == 0x85 || l[1] == 0xa0) {
        2
    } else if l.len() >= 3 && l[0] == 0xe1 && l[1] == 0x9a && l[2] == 0x80 {
        3
    } else if l.len() >= 3 && l[0] == 0xe2 && l[1] == 0x80 && (0x80 <= l[2] <= 0x8a || l[2] == 0xa8
        || l[2] == 0xa9 || l[2] == 0xaf) {
        3
    } else if l.len() >= 3 && l[0] == 0xe2 && l[1] == 0x81 && l[2] == 0x9f {
        3
    } else if l.len() >= 3 && l[0] == 0xe3 && l[1] == 0x80 && l[2] == 0x80 {
        3
    } else {
        0
    }
}

/// An ASCII decimal digit.
pub open spec fn is_digit(b: u8) -> bool {
    48 <= b <= 57
}

/// A terminated line drops one trailing carriage return.
pub open spec fn strip_cr(l: Seq<u8>) -> Seq<u8> {
    if l.len() > 0 && l.last() == 13 {
        l.drop_last()
    } else {
        l
    }
}

/// The lines of `t` after the partial line `cur` has already been read:
/// a line feed terminates the line gathered so far, and a last line without
/// a terminator still counts, while a final terminator adds no empty line.
pub open spec fn lines_acc(t: Seq<u8>, cur: Seq<u8>) -> Seq<Seq<u8>>
    decreases t.len(),
{
    if t.len() == 0 {
        if cur.len() == 0 {
            Seq::empty()
        } else {
            seq![cur]
        }
    } else if t[0] == 10 {
        seq![strip_cr(cur)] + lines_acc(t.skip(1), Seq::empty())
    } else {
        lines_acc(t.skip(1), cur.push(t[0]))
    }
}

/// The ordered lines of the raw text `t`.
pub open spec fn spec_lines(t: Seq<u8>) -> Seq<Seq<u8>> {
    lines_acc(t, Seq::empty())
}

/// The digits of the token, past a single leading sign if there is one.
pub open spec fn unsigned_part(t: Seq<u8>) -> Seq<u8> {
    if t.len() > 0 && (t[0] == 43 || t[0] == 45) {
        t.skip(1)
    } else {
        t
    }
}

/// The token carries a leading minus sign.
pub open spec fn is_negative_token(t: Seq<u8>) -> bool {
    t.len() > 0 && t[0] == 45
}

/// Every byte of `d` is a decimal digit (and there is at least one).
pub open spec fn all_digits(d: Seq<u8>) -> bool {
    d.len() >= 1 && forall|i: int| 0 <= i < d.len() ==> is_digit(#[trigger] d[i])
}

/// The non-negative value of a digit string, most significant digit first.
pub open spec fn digits_val(d: Seq<u8>) -> int
    decreases d.len(),
{
    if d.len() == 0 {
        0
    } else {
        digits_val(d.drop_last()) * 10 + (d.last() - 48)
    }
}

/// The token parses as an `i32`: an optional sign, then only digits, and a
/// value within the `i32` range.
pub open spec fn is_int_token(t: Seq<u8>) -> bool {
    let d = unsigned_part(t);
    &&& all_digits(d)
    &&& if is_negative_token(t) {
        digits_val(d) <= 0x8000_0000
    } else {
        digits_val(d) <= 0x7fff_ffff
    }
}

/// The signed value of an integer token.
pub open spec fn int_val(t: Seq<u8>) -> int {
    if is_negative_token(t) {
        -digits_val(unsigned_part(t))
    } else {
        digits_val(unsigned_part(t))
    }
}

/// What a finished token contributes to the integer list of a line:
/// its value if it parses as an `i32`, nothing otherwise.
pub open spec fn token_vals(tok: Seq<u8>) -> Seq<i32> {
    if is_int_token(tok) {
        seq![int_val(tok) as i32]
    } else {
        Seq::empty()
    }
}

/// The integer values of the whitespace-separated tokens of `l` that parse
/// as an `i32`, with the partial token `cur` already read. Tokens that do
/// not parse are passed over.
pub open spec fn ivals_acc(l: Seq<u8>, cur: Seq<u8>) -> Seq<i32>
    decreases l.len(),
{
    if l.len() == 0 {
        token_vals(cur)
    } else if ws_prefix_len(l) > 0 {
        token_vals(cur) + ivals_acc(l.skip(ws_prefix_len(l)), Seq::empty())
    } else {
        ivals_acc(l.skip(1), cur.push(l[0]))
    }
}

/// The integers on the line `l`: the values of those whitespace-separated
/// tokens that parse as an `i32`, in order.
pub open spec fn int_vals(l: Seq<u8>) -> Seq<i32> {
    ivals_acc(l, Seq::empty())
}

/// Digit strings are non-negative.
pub proof fn lemma_digits_val_nonneg(d: Seq<u8>)
    requires
        forall|i: int| 0 <= i < d.len() ==> is_digit(#[trigger] d[i]),
    ensures
        digits_val(d) >= 0,
    decreases d.len(),
{
    if d.len() > 0 {
        lemma_digits_val_nonneg(d.drop_last());
    }
}

/// Appending digits never shrinks the value: the value of a digit string is
/// at least the value of any of its prefixes.
pub proof fn lemma_digits_val_prefix(d: Seq<u8>, i: int)
    requires
        forall|i: int| 0 <= i < d.len() ==> is_digit(#[trigger] d[i]),
        0 <= i <= d.len(),
    ensures
        digits_val(d) >= digits_val(d.subrange(0, i)),
    decreases d.len() - i,
{
    if i == d.len() {
        assert(d.subrange(0, i) =~= d);
    } else {
        lemma_digits_val_prefix(d, i + 1);
        let p = d.subrange(0, i + 1);
        assert(p.drop_last() =~= d.subrange(0, i));
        lemma_digits_val_nonneg(d.subrange(0, i));
    }
}

/// Reads a token as a 32-bit signed integer: an optional sign followed by
/// at least one digit, rejecting anything else and any value outside the
/// `i32` range.
#[verifier::loop_isolation(false)]
pub fn parse_i32(t: &Vec<u8>) -> (r: Option<i32>)
    ensures
        r is Some <==> is_int_token(t@),
        r matches Some(v) ==> v as int == int_val(t@),
{
    if t.len() == 0 {
        return None;
    }
    let b0 = t[0];
    let neg = b0 == 45;
    let mut i: usize = if b0 == 43 || b0 == 45 {
        1
    } else {
        0
    };
    let ghost start = i as int;
    let ghost d = unsigned_part(t@);
    proof {
        assert(d =~= t@.subrange(start, t@.len() as int));
    }
    if i == t.len() {
        return None;
    }
    let mut acc: i64 = 0;
    while i < t.len()
        invariant
            start <= i <= t@.len(),
            d == t@.subrange(start, t@.len() as int),
            forall|k: int| 0 <= k < i - start ==> is_digit(#[trigger] d[k]),
            acc as int == digits_val(d.subrange(0, i - start)),
            0 <= acc <= 0x8000_0000,
        decreases t@.len() - i,
    {
        let b = t[i];
        if b < 48 || b > 57 {
            // A non-digit byte in the digit part: the token does not parse.
            assert(d[i - start] == b);
            assert(!all_digits(d));
            return None;
        }
        proof {
            let p = d.subrange(0, i - start + 1);
            assert(p.drop_last() =~= d.subrange(0, i - start));
            assert(p.last() == d[i - start]);
        }
        acc = acc * 10 + ((b - 48) as i64);
        i = i + 1;
        if acc > 0x8000_0000 {
            // The value already exceeds the i32 range, and appending further
            // digits can only grow it.
            proof {
                if all_digits(d) {
                    lemma_digits_val_prefix(d, i - start);
                }
            }
            return None;
        }
    }
    proof {
        assert(d.subrange(0, d.len() as int) =~= d);
        assert(all_digits(d));
    }
    if neg {
        proof {
            assert(t@[0] == 45);
        }
        Some((-acc) as i32)
    } else {
        if acc > 0x7fff_ffff {
            return None;
        }
        proof {
            assert(!is_negative_token(t@));
        }
        Some(acc as i32)
    }
}

/// Splits the raw text into its lines.
#[verifier::loop_isolation(false)]
pub fn split_lines(t: &Vec<u8>) -> (r: Vec<Vec<u8>>)
    ensures
        r.deep_view() == spec_lines(t@),
{
    let mut out: Vec<Vec<u8>> = Vec::new();
    let mut cur: Vec<u8> = Vec::new();
    let mut i: usize = 0;
    proof {
        assert(t@.skip(0) =~= t@);
        assert(out.deep_view() =~~= Seq::<Seq<u8>>::empty());
        assert(out.deep_view() + lines_acc(t@.skip(0), cur@) =~~= spec_lines(t@));
    }
    while i < t.len()
        invariant
            i <= t@.len(),
            out.deep_view() + lines_acc(t@.skip(i as int), cur@) == spec_lines(t@),
        decreases t@.len() - i,
    {
        let ghost pre = t@.skip(i as int);
        proof {
            assert(pre[0] == t@[i as int]);
            assert(pre.skip(1) =~= t@.skip(i + 1));
        }
        let b = t[i];
        if b == 10 {
            let ghost old_out = out.deep_view();
            let ghost old_cur = cur@;
            if cur.len() > 0 && cur[cur.len() - 1] == 13 {
                cur.pop();
            }
            proof {
                assert(cur@ =~= strip_cr(old_cur));
            }
            out.push(cur);
            cur = Vec::new();
            proof {
                assert(out.deep_view() =~~= old_out.push(strip_cr(old_cur)));
                assert(old_out + (seq![strip_cr(old_cur)] + lines_acc(t@.skip(i + 1), Seq::empty()))
                    =~~= out.deep_view() + lines_acc(t@.skip(i + 1), Seq::empty()));
            }
        } else {
            cur.push(b);
        }
        i = i + 1;
    }
    proof {
        assert(t@.skip(t@.len() as int) =~= Seq::<u8>::empty());
    }
    let ghost old_out = out.deep_view();
    let ghost last_cur = cur@;
    if cur.len() > 0 {
        out.push(cur);
        proof {
            assert(out.deep_view() =~~= old_out + seq![last_cur]);
        }
    } else {
        proof {
            assert(out.deep_view() + Seq::<Seq<u8>>::empty() =~~= out.deep_view());
        }
    }
    out
}

/// The length of the white-space prefix of `l` from position `i`.
#[verifier::loop_isolation(false)]
fn ws_at(l: &Vec<u8>, i: usize) -> (k: usize)
    requires
        i < l@.len(),
    ensures
        k as int == ws_prefix_len(l@.skip(i as int)),
        i + k <= l@.len(),
{
    let ghost pre = l@.skip(i as int);
    proof {
        assert(pre[0] == l@[i as int]);
        if pre.len() >= 2 {
            assert(pre[1] == l@[i + 1]);
        }
        if pre.len() >= 3 {
            assert(pre[2] == l@[i + 2]);
        }
    }
    let rem = l.len() - i;
    let b0 = l[i];
    if b0 == 9 || b0 == 10 || b0 == 11 || b0 == 12 || b0 == 13 || b0 == 32 {
        return 1;
    }
    if b0 == 0xc2 && rem >= 2 {
        let b1 = l[i + 1];
        if b1 == 0x85 || b1 == 0xa0 {
            return 2;
        }
        return 0;
    }
    if rem >= 3 {
        let b1 = l[i + 1];
        let b2 = l[i + 2];
        if b0 == 0xe1 && b1 == 0x9a && b2 == 0x80 {
            return 3;
        }
        if b0 == 0xe2 && b1 == 0x80 && (0x80 <= b2 && b2 <= 0x8a || b2 == 0xa8 || b2 == 0xa9 || b2
            == 0xaf) {
            return 3;
        }
        if b0 == 0xe2 && b1 == 0x81 && b2 == 0x9f {
            return 3;
        }
        if b0 == 0xe3 && b1 == 0x80 && b2 == 0x80 {
            return 3;
        }
    }
    0
}

/// The integers on a line: each whitespace-separated token that parses as an
/// `i32`, in order; tokens that do not parse are passed over.
#[verifier::loop_isolation(false)]
pub fn int_tokens(l: &Vec<u8>) -> (r: Vec<i32>)
    ensures
        r@ == int_vals(l@),
{
    let mut out: Vec<i32> = Vec::new();
    let mut cur: Vec<u8> = Vec::new();
    let mut i: usize = 0;
    proof {
        assert(l@.skip(0) =~= l@);
        assert(out@ + ivals_acc(l@.skip(0), cur@) =~= int_vals(l@));
    }
    while i < l.len()
        invariant
            i <= l@.len(),
            out@ + ivals_acc(l@.skip(i as int), cur@) == int_vals(l@),
        decreases l@.len() - i,
    {
        let ghost pre = l@.skip(i as int);
        let k = ws_at(l, i);
        if k > 0 {
            let ghost old_out = out@;
            let ghost old_cur = cur@;
            match parse_i32(&cur) {
                Some(v) => {
                    out.push(v);
                    proof {
                        assert(v == int_val(cur@) as i32);
                        assert(out@ =~= old_out + token_vals(cur@));
                    }
                },
                None => {
                    proof {
                        assert(out@ =~= old_out + token_vals(cur@));
                    }
                },
            }
            cur = Vec::new();
            proof {
                assert(pre.skip(k as int) =~= l@.skip(i + k));
                assert(old_out + (token_vals(old_cur) + ivals_acc(l@.skip(i + k), Seq::empty()))
                    =~= out@ + ivals_acc(l@.skip(i + k), Seq::empty()));
            }
            i = i + k;
            continue;
        }
        proof {
            assert(pre[0] == l@[i as int]);
            assert(pre.skip(1) =~= l@.skip(i + 1));
        }
        cur.push(l[i]);
        i = i + 1;
    }
    proof {
        assert(l@.skip(l@.len() as int) =~= Seq::<u8>::empty());
    }
    let ghost old_out = out@;
    match parse_i32(&cur) {
        Some(v) => {
            out.push(v);
            proof {
                assert(v == int_val(cur@) as i32);
                assert(out@ =~= old_out + token_vals(cur@));
            }
        },
        None => {
            proof {
                assert(out@ =~= old_out + token_vals(cur@));
            }
        },
    }
    out
}

} // verus!
