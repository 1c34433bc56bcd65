//! Parameters of an ANSI control sequence (CSI): the bytes between `ESC [`
//! and the final byte, split at `;`, empty fields dropped, each field read
//! as an unsigned decimal number (an unreadable field counts as 0).

use vstd::prelude::*;

verus! {

/// The byte `;` that separates CSI parameters.
pub const SEMICOLON: u8 = 59;

/// The byte `+` that may lead a decimal number.
pub const PLUS: u8 = 43;

pub open spec fn is_digit(b: u8) -> bool {
    48 <= b <= 57
}

pub open spec fn all_digits(d: Seq<u8>) -> bool {
    forall|i: int| 0 <= i < d.len() ==> is_digit(#[trigger] d[i])
}

/// The number that a run of decimal digits spells, most significant first.
pub open spec fn digits_value(d: Seq<u8>) -> nat
    decreases d.len(),
{
    if d.len() == 0 {
        0
    } else {
        digits_value(d.drop_last()) * 10 + (d.last() - 48) as nat
    }
}

/// The digits of a field, after the one `+` that may lead it.
pub open spec fn unsigned_digits(f: Seq<u8>) -> Seq<u8> {
    if f.len() > 0 && f[0] == PLUS {
        f.drop_first()
    } else {
        f
    }
}

/// What `usize::from_str` makes of a field: an optional `+` followed by at
/// least one decimal digit whose value fits in `usize`; anything else (a sign
/// `-`, another character, no digit, overflow) is read as 0.
pub open spec fn param_value(f: Seq<u8>) -> usize {
    let d = unsigned_digits(f);
    if d.len() > 0 && all_digits(d) && digits_value(d) <= usize::MAX {
        digits_value(d) as usize
    } else {
        0
    }
}

/// The bytes after the last `;` (the whole input when it holds none).
pub open spec fn last_field(s: Seq<u8>) -> Seq<u8>
    decreases s.len(),
{
    if s.len() == 0 {
        seq![]
    } else if s.last() == SEMICOLON {
        seq![]
    } else {
        last_field(s.drop_last()).push(s.last())
    }
}

/// The parameter that a field contributes: none when it is empty.
pub open spec fn field_param(f: Seq<u8>) -> Seq<usize> {
    if f.len() == 0 {
        seq![]
    } else {
        seq![param_value(f)]
    }
}

/// The parameters of the fields that a `;` has closed, in order.
pub open spec fn closed_params(s: Seq<u8>) -> Seq<usize>
    decreases s.len(),
{
    if s.len() == 0 {
        seq![]
    } else if s.last() == SEMICOLON {
        closed_params(s.drop_last()) + field_param(last_field(s.drop_last()))
    } else {
        closed_params(s.drop_last())
    }
}

/// The parameter list of a control sequence whose parameter bytes are `s`.
pub open spec fn csi_params(s: Seq<u8>) -> Seq<usize> {
    closed_params(s) + field_param(last_field(s))
}

proof fn lemma_digits_push(d: Seq<u8>, b: u8)
    ensures
        digits_value(d.push(b)) == digits_value(d) * 10 + (b - 48) as nat,
{
    assert(d.push(b).drop_last() =~= d);
}

/// Reads the field `s[lo..hi]` as `usize::from_str` does, 0 where it fails.
pub fn parse_field(s: &Vec<u8>, lo: usize, hi: usize) -> (r: usize)
    requires
        lo <= hi <= s@.len(),
    ensures
        r == param_value(s@.subrange(lo as int, hi as int)),
{
    let ghost f = s@.subrange(lo as int, hi as int);
    let mut start = lo;
    if start < hi && s[start] == PLUS {
        start = start + 1;
    }
    assert(unsigned_digits(f) =~= s@.subrange(start as int, hi as int));
    if start == hi {
        return 0;
    }
    let mut acc: usize = 0;
    let mut fits = true;
    let mut j = start;
    while j < hi
        invariant
            lo <= start <= j <= hi <= s@.len(),
            start < hi,
            unsigned_digits(s@.subrange(lo as int, hi as int)) == s@.subrange(start as int, hi as int),
            all_digits(s@.subrange(start as int, j as int)),
            fits ==> acc == digits_value(s@.subrange(start as int, j as int)),
            !fits ==> digits_value(s@.subrange(start as int, j as int)) > usize::MAX,
        decreases hi - j,
    {
        let b = s[j];
        if b < 48 || b > 57 {
            assert(!all_digits(s@.subrange(start as int, hi as int))) by {
                assert(s@.subrange(start as int, hi as int)[j - start] == b);
            }
            return 0;
        }
        let ghost prev = s@.subrange(start as int, j as int);
        proof {
            assert(s@.subrange(start as int, j + 1) =~= prev.push(b));
            lemma_digits_push(prev, b);
        }
        if fits {
            match acc.checked_mul(10) {
                Some(m) => match m.checked_add((b - 48) as usize) {
                    Some(v) => {
                        acc = v;
                    },
                    None => {
                        fits = false;
                    },
                },
                None => {
                    fits = false;
                },
            }
        }
        j = j + 1;
    }
    if fits {
        acc
    } else {
        0
    }
}

/// Splits parameter bytes at `;`, drops empty fields and reads each field.
pub fn parse_params(s: &Vec<u8>) -> (r: Vec<usize>)
    ensures
        r@ == csi_params(s@),
{
    let mut out: Vec<usize> = Vec::new();
    let mut start: usize = 0;
    let mut i: usize = 0;
    while i < s.len()
        invariant
            start <= i <= s@.len(),
            out@ == closed_params(s@.take(i as int)),
            s@.subrange(start as int, i as int) == last_field(s@.take(i as int)),
        decreases s@.len() - i,
    {
        let ghost pre = s@.take(i as int);
        assert(s@.take(i + 1).drop_last() =~= pre);
        if s[i] == SEMICOLON {
            if i > start {
                let v = parse_field(s, start, i);
                out.push(v);
            }
            start = i + 1;
            assert(s@.subrange(start as int, i + 1) =~= last_field(s@.take(i + 1)));
        } else {
            assert(s@.subrange(start as int, i + 1) =~= s@.subrange(start as int, i as int).push(
                s@[i as int],
            ));
        }
        i = i + 1;
    }
    assert(s@.take(s@.len() as int) =~= s@);
    if s.len() > start {
        let v = parse_field(s, start, s.len());
        out.push(v);
    }
    out
}

} // verus!
